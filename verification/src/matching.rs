//! How well a group of local tracks matches a release.
//!
//! The factors of a score are exact here: a ratio of two integers, one
//! similarity, or the mean of several. A similarity is a number between
//! zero and one, held as the bits of its double-precision form; on such
//! numbers the bits order as the numbers do.
use vstd::prelude::*;

use crate::releases::{reads, status_reads, MbRelease, MbTrack};
use crate::sorting::{comes_before, stable_order, stably_ordered};
use crate::text::{
    ascii_lower, char_lowercased, char_to_lower, chars_of, contains_text, has_text, is_ascii_letter,
    is_space, replace_text, replaced, same, text_of, to_ascii_lower, trim, trimmed, views,
    whitespace,
};

verus! {

// ---------------------------------------------------------------------------
// Scripts

/// The script that a character belongs to, as a number below nine: Latin,
/// Kana, CJK, Hangul, Cyrillic, Greek, Hebrew, Arabic, Thai. Digits,
/// whitespace and punctuation belong to none.
pub open spec fn script_of(c: char) -> Option<int> {
    let u = c as u32;
    if is_ascii_letter(c) || 0x00c0 <= u <= 0x024f {
        Some(0)
    } else if 0x3040 <= u <= 0x30ff || 0x31f0 <= u <= 0x31ff || 0xff66 <= u <= 0xff9f {
        Some(1)
    } else if 0x4e00 <= u <= 0x9fff || 0x3400 <= u <= 0x4dbf || 0x20000 <= u <= 0x2ebef || 0x30000
        <= u <= 0x3134f || 0xf900 <= u <= 0xfaff {
        Some(2)
    } else if 0xac00 <= u <= 0xd7af || 0x1100 <= u <= 0x11ff || 0xa960 <= u <= 0xa97f || 0xd7b0
        <= u <= 0xd7ff {
        Some(3)
    } else if 0x0400 <= u <= 0x04ff {
        Some(4)
    } else if 0x0370 <= u <= 0x03ff {
        Some(5)
    } else if 0x0590 <= u <= 0x05ff {
        Some(6)
    } else if 0x0600 <= u <= 0x06ff {
        Some(7)
    } else if 0x0e00 <= u <= 0x0e7f {
        Some(8)
    } else {
        None
    }
}

/// The script that a character belongs to.
fn script_number(c: char) -> (r: Option<usize>)
    ensures
        match r {
            Some(k) => script_of(c) == Some(k as int) && k < 9,
            None => script_of(c) is None,
        },
{
    let u: u32 = c as u32;
    if ('a' <= c && c <= 'z') || ('A' <= c && c <= 'Z') || (0x00c0 <= u && u <= 0x024f) {
        Some(0)
    } else if (0x3040 <= u && u <= 0x30ff) || (0x31f0 <= u && u <= 0x31ff) || (0xff66 <= u && u
        <= 0xff9f) {
        Some(1)
    } else if (0x4e00 <= u && u <= 0x9fff) || (0x3400 <= u && u <= 0x4dbf) || (0x20000 <= u && u
        <= 0x2ebef) || (0x30000 <= u && u <= 0x3134f) || (0xf900 <= u && u <= 0xfaff) {
        Some(2)
    } else if (0xac00 <= u && u <= 0xd7af) || (0x1100 <= u && u <= 0x11ff) || (0xa960 <= u && u
        <= 0xa97f) || (0xd7b0 <= u && u <= 0xd7ff) {
        Some(3)
    } else if 0x0400 <= u && u <= 0x04ff {
        Some(4)
    } else if 0x0370 <= u && u <= 0x03ff {
        Some(5)
    } else if 0x0590 <= u && u <= 0x05ff {
        Some(6)
    } else if 0x0600 <= u && u <= 0x06ff {
        Some(7)
    } else if 0x0e00 <= u && u <= 0x0e7f {
        Some(8)
    } else {
        None
    }
}

/// Whether some character of `s` belongs to script `k`.
pub open spec fn uses_script(s: Seq<char>, k: int) -> bool {
    exists|i: int| 0 <= i < s.len() && script_of(#[trigger] s[i]) == Some(k)
}

/// Whether some character of `s` belongs to a script.
pub open spec fn uses_any_script(s: Seq<char>) -> bool {
    exists|i: int| 0 <= i < s.len() && (script_of(#[trigger] s[i]) is Some)
}

/// Whether both texts belong to scripts and no script is common to them.
pub open spec fn no_common_script(a: Seq<char>, b: Seq<char>) -> bool {
    &&& uses_any_script(a)
    &&& uses_any_script(b)
    &&& forall|k: int| !(#[trigger] uses_script(a, k) && uses_script(b, k))
}

/// Which of the nine scripts a text uses.
fn scripts_of(s: &str) -> (r: Vec<bool>)
    ensures
        r@.len() == 9,
        forall|k: int| 0 <= k < 9 ==> #[trigger] r@[k] == uses_script(s@, k),
{
    let v = chars_of(s);
    let mut used: Vec<bool> = vec![false; 9];
    let mut i: usize = 0;
    while i < v.len()
        invariant
            i <= v@.len(),
            v@ == s@,
            used@.len() == 9,
            forall|k: int| 0 <= k < 9 ==> #[trigger] used@[k] == uses_script(s@.take(i as int), k),
        decreases v@.len() - i,
    {
        let ghost before = used@;
        let found = script_number(v[i]);
        if let Some(k) = found {
            used.set(k, true);
        }
        proof {
            let now = s@.take(i + 1);
            assert(now[i as int] == s@[i as int]);
            assert forall|k: int| 0 <= k < 9 implies #[trigger] used@[k] == uses_script(now, k) by {
                assert(before[k] == uses_script(s@.take(i as int), k));
                if uses_script(s@.take(i as int), k) {
                    let j = choose|j: int|
                        0 <= j < i && script_of(#[trigger] s@.take(i as int)[j]) == Some(k);
                    assert(now[j] == s@.take(i as int)[j]);
                }
                if uses_script(now, k) {
                    let j = choose|j: int|
                        0 <= j < now.len() && script_of(#[trigger] now[j]) == Some(k);
                    if j < i {
                        assert(s@.take(i as int)[j] == now[j]);
                    }
                }
            }
        }
        i += 1;
    }
    assert(s@.take(s@.len() as int) =~= s@);
    used
}

/// Every script is one of the nine.
proof fn lemma_nine_scripts(c: char)
    ensures
        script_of(c) is Some ==> 0 <= script_of(c)->0 < 9,
{
}

/// Whether two texts share no script, so that comparing them letter by
/// letter means nothing. A text without any script compares with all.
pub fn scripts_differ(a: &str, b: &str) -> (r: bool)
    ensures
        r == no_common_script(a@, b@),
{
    let x = scripts_of(a);
    let y = scripts_of(b);
    let mut any_a = false;
    let mut any_b = false;
    let mut common = false;
    let mut k: usize = 0;
    while k < 9
        invariant
            k <= 9,
            x@.len() == 9,
            y@.len() == 9,
            any_a == (exists|j: int| 0 <= j < k && #[trigger] x@[j]),
            any_b == (exists|j: int| 0 <= j < k && #[trigger] y@[j]),
            common == (exists|j: int| 0 <= j < k && #[trigger] x@[j] && y@[j]),
        decreases 9 - k,
    {
        if x[k] {
            any_a = true;
        }
        if y[k] {
            any_b = true;
        }
        if x[k] && y[k] {
            common = true;
        }
        k += 1;
    }
    proof {
        assert(any_a == uses_any_script(a@)) by {
            lemma_any_script(a@, x@);
        }
        assert(any_b == uses_any_script(b@)) by {
            lemma_any_script(b@, y@);
        }
        if common {
            let j = choose|j: int| 0 <= j < 9 && #[trigger] x@[j] && y@[j];
            assert(uses_script(a@, j) && uses_script(b@, j));
        } else {
            assert forall|k: int| !(#[trigger] uses_script(a@, k) && uses_script(b@, k)) by {
                if uses_script(a@, k) && uses_script(b@, k) {
                    let i = choose|i: int|
                        0 <= i < a@.len() && script_of(#[trigger] a@[i]) == Some(k);
                    lemma_nine_scripts(a@[i]);
                    assert(x@[k] && y@[k]);
                }
            }
        }
    }
    any_a && any_b && !common
}

proof fn lemma_any_script(s: Seq<char>, used: Seq<bool>)
    requires
        used.len() == 9,
        forall|k: int| 0 <= k < 9 ==> #[trigger] used[k] == uses_script(s, k),
    ensures
        uses_any_script(s) == (exists|j: int| 0 <= j < 9 && #[trigger] used[j]),
{
    if uses_any_script(s) {
        let i = choose|i: int| 0 <= i < s.len() && (script_of(#[trigger] s[i]) is Some);
        lemma_nine_scripts(s[i]);
        assert(uses_script(s, script_of(s[i])->0));
        assert(used[script_of(s[i])->0]);
    }
    if exists|j: int| 0 <= j < 9 && #[trigger] used[j] {
        let j = choose|j: int| 0 <= j < 9 && #[trigger] used[j];
        assert(uses_script(s, j));
        let i = choose|i: int| 0 <= i < s.len() && script_of(#[trigger] s[i]) == Some(j);
        assert(script_of(s[i]) is Some);
    }
}

/// Whether `s` holds no letter of a script other than Latin.
pub open spec fn pure_latin(s: Seq<char>) -> bool {
    forall|i: int| 0 <= i < s.len() ==> script_of(#[trigger] s[i]) is None || script_of(s[i])
        == Some(0int)
}

/// Whether `s` holds no letter of a script other than Latin, so that there
/// is nothing in it to romanise.
pub fn is_pure_latin(s: &str) -> (r: bool)
    ensures
        r == pure_latin(s@),
{
    let v = chars_of(s);
    let mut i: usize = 0;
    while i < v.len()
        invariant
            i <= v@.len(),
            v@ == s@,
            forall|j: int|
                0 <= j < i ==> script_of(#[trigger] s@[j]) is None || script_of(s@[j]) == Some(0int),
        decreases v@.len() - i,
    {
        if let Some(k) = script_number(v[i]) {
            if k != 0 {
                assert(script_of(s@[i as int]) != Some(0int));
                return false;
            }
        }
        i += 1;
    }
    true
}

// ---------------------------------------------------------------------------
// Labels and titles

/// The ASCII letters of `s` in lower case, and nothing else.
pub open spec fn letters(s: Seq<char>) -> Seq<char>
    decreases s.len(),
{
    if s.len() == 0 {
        Seq::empty()
    } else if is_ascii_letter(s.last()) {
        letters(s.drop_last()).push(ascii_lower(s.last()))
    } else {
        letters(s.drop_last())
    }
}

/// The ASCII letters of `s` in lower case.
fn only_letters(s: &str) -> (r: String)
    ensures
        r@ == letters(s@),
{
    let v = chars_of(s);
    let mut out = String::new();
    let mut i: usize = 0;
    while i < v.len()
        invariant
            i <= v@.len(),
            v@ == s@,
            out@ == letters(s@.take(i as int)),
        decreases v@.len() - i,
    {
        let c = v[i];
        if ('a' <= c && c <= 'z') || ('A' <= c && c <= 'Z') {
            out.push(to_ascii_lower(c));
        }
        i += 1;
        assert(s@.take(i as int).drop_last() =~= s@.take(i - 1));
    }
    assert(s@.take(s@.len() as int) =~= s@);
    out
}

/// Whether `s` is a label for a release by several artists.
pub open spec fn various_artists(s: Seq<char>) -> bool {
    ||| has_text(s, "オムニバス"@)
    ||| has_text(s, "ヴァリアス"@)
    ||| letters(s) == "variousartists"@
    ||| letters(s) == "variousartist"@
    ||| letters(s) == "various"@
    ||| letters(s) == "va"@
    ||| letters(s) == "artistivari"@
    ||| letters(s) == "variartisti"@
}

/// Whether `s` is a label that taggers give to releases by several artists:
/// "Various Artists", "V.A.", "Artisti Vari" and the like. Such a label
/// says nothing of the artist.
pub fn is_various_artists_label(s: &str) -> (r: bool)
    ensures
        r == various_artists(s@),
{
    if contains_text(s, "オムニバス") || contains_text(s, "ヴァリアス") {
        return true;
    }
    let compact = only_letters(s);
    let c = compact.as_str();
    same(c, "variousartists") || same(c, "variousartist") || same(c, "various") || same(c, "va")
        || same(c, "artistivari") || same(c, "variartisti")
}

/// The words of `s`, with one space between each two.
pub open spec fn spaced(s: Seq<char>) -> Seq<char>
    decreases s.len(),
{
    if s.len() == 0 {
        Seq::empty()
    } else if is_space(s.last()) {
        spaced(s.drop_last())
    } else if s.len() > 1 && is_space(s[s.len() - 2]) && spaced(s.drop_last()).len() > 0 {
        spaced(s.drop_last()).push(' ').push(s.last())
    } else {
        spaced(s.drop_last()).push(s.last())
    }
}

/// The words of `s`, with one space between each two.
fn join_words(s: &str) -> (r: String)
    ensures
        r@ == spaced(s@),
{
    let v = chars_of(s);
    let mut out: Vec<char> = Vec::new();
    let mut i: usize = 0;
    while i < v.len()
        invariant
            i <= v@.len(),
            v@ == s@,
            out@ == spaced(s@.take(i as int)),
        decreases v@.len() - i,
    {
        let c = v[i];
        proof {
            assert(s@.take(i + 1).drop_last() =~= s@.take(i as int));
            assert(s@.take(i + 1).last() == c);
        }
        if !whitespace(c) {
            if i > 0 && whitespace(v[i - 1]) && out.len() > 0 {
                out.push(' ');
            }
            out.push(c);
        }
        i += 1;
    }
    assert(s@.take(s@.len() as int) =~= s@);
    let n: usize = out.len();
    assert(out@.subrange(0, n as int) =~= out@);
    text_of(&out, 0, n)
}

/// A space for each bracket.
pub open spec fn bracket_free(s: Seq<char>) -> Seq<char> {
    s.map_values(|c: char| if c == '(' || c == ')' || c == '[' || c == ']' { ' ' } else { c })
}

/// A space for each bracket.
fn drop_brackets(s: &str) -> (r: String)
    ensures
        r@ == bracket_free(s@),
{
    let v = chars_of(s);
    let mut out = String::new();
    let mut i: usize = 0;
    while i < v.len()
        invariant
            i <= v@.len(),
            v@ == s@,
            out@ == bracket_free(s@).take(i as int),
        decreases v@.len() - i,
    {
        let c = v[i];
        if c == '(' || c == ')' || c == '[' || c == ']' {
            out.push(' ');
        } else {
            out.push(c);
        }
        i += 1;
        assert(bracket_free(s@).take(i as int) =~= bracket_free(s@).take(i - 1).push(
            bracket_free(s@)[i - 1],
        ));
    }
    assert(bracket_free(s@).take(s@.len() as int) =~= bracket_free(s@));
    out
}

/// A title as titles are compared: brackets and separators give way to
/// spaces, and words stand one space apart.
pub open spec fn plain_title(s: Seq<char>) -> Seq<char> {
    spaced(replaced(replaced(replaced(bracket_free(s), " - "@, " "@), " — "@, " "@), ": "@, " "@))
}

/// A title as titles are compared.
pub fn normalize_title(s: &str) -> (r: String)
    ensures
        r@ == plain_title(s@),
{
    proof {
        reveal_strlit(" - ");
        reveal_strlit(" — ");
        reveal_strlit(": ");
    }
    let a = drop_brackets(s);
    let b = replace_text(a.as_str(), " - ", " ");
    let c = replace_text(b.as_str(), " — ", " ");
    let d = replace_text(c.as_str(), ": ", " ");
    join_words(d.as_str())
}

// ---------------------------------------------------------------------------
// Similarity

/// The bits of one, the similarity of equal texts.
pub const ONE: u64 = 0x3ff0_0000_0000_0000;

/// The bits of seven tenths, the least similarity at which two track titles
/// may be taken for each other.
pub const ALIKE: u64 = 0x3fe6_6666_6666_6666;

/// What `strsim::jaro_winkler` makes of two texts, as the bits of the number.
pub uninterp spec fn jaro_winkler_bits(a: Seq<char>, b: Seq<char>) -> u64;

/// `strsim::jaro_winkler`. The similarity depends on the two texts alone,
/// lies between zero and one, and is one for equal texts. What it is
/// otherwise is only named here.
#[verifier::external_body]
fn winkler(a: &str, b: &str) -> (r: u64)
    ensures
        r == jaro_winkler_bits(a@, b@),
        r <= ONE,
        a@ == b@ ==> r == ONE,
{
    strsim::jaro_winkler(a, b).to_bits()
}

/// `s` with each character in lower case by itself.
pub open spec fn each_lowered(s: Seq<char>) -> Seq<char>
    decreases s.len(),
{
    if s.len() == 0 {
        Seq::empty()
    } else {
        each_lowered(s.drop_last()) + char_lowercased(s.last())
    }
}

/// `s` with each character in lower case by itself.
fn lower_each(s: &str) -> (r: String)
    ensures
        r@ == each_lowered(s@),
        r@.len() >= s@.len(),
{
    let v = chars_of(s);
    let mut out = String::new();
    let mut i: usize = 0;
    while i < v.len()
        invariant
            i <= v@.len(),
            v@ == s@,
            out@ == each_lowered(s@.take(i as int)),
            out@.len() >= i,
        decreases v@.len() - i,
    {
        let low = char_to_lower(v[i]);
        out.append(low.as_str());
        i += 1;
        assert(s@.take(i as int).drop_last() =~= s@.take(i - 1));
    }
    assert(s@.take(s@.len() as int) =~= s@);
    out
}

/// The similarity of two texts, whatever their case.
pub open spec fn similarity(a: Seq<char>, b: Seq<char>) -> u64 {
    if a.len() == 0 && b.len() == 0 {
        ONE
    } else if a.len() == 0 || b.len() == 0 {
        0
    } else {
        jaro_winkler_bits(each_lowered(a), each_lowered(b))
    }
}

/// The similarity of two texts, whatever their case. It is at most one, and
/// one for texts that are equal but for their case.
pub fn sim(a: &str, b: &str) -> (r: u64)
    ensures
        r == similarity(a@, b@),
        r <= ONE,
        a@ == b@ ==> r == ONE,
        each_lowered(a@) == each_lowered(b@) ==> r == ONE,
{
    let p = lower_each(a);
    let q = lower_each(b);
    if a.is_empty() && b.is_empty() {
        return ONE;
    }
    if a.is_empty() || b.is_empty() {
        return 0;
    }
    winkler(p.as_str(), q.as_str())
}

// ---------------------------------------------------------------------------
// Pairing track titles

/// A local title and a track of the release that are alike.
#[derive(Debug, Clone, Copy, PartialEq, Eq, Structural)]
pub struct Pair {
    pub local: usize,
    pub track: usize,
    pub bits: u64,
}

/// The titles of the tracks of a release.
pub open spec fn titles_of(tracks: Seq<MbTrack>) -> Seq<Seq<char>> {
    tracks.map_values(|t: MbTrack| t.title@)
}

/// The pairs of local title `i` with the first `n` of `titles`.
pub open spec fn row_pairs(
    locals: Seq<Seq<char>>,
    titles: Seq<Seq<char>>,
    i: int,
    n: int,
) -> Seq<Pair>
    decreases n,
{
    if n <= 0 {
        Seq::empty()
    } else {
        let prev = row_pairs(locals, titles, i, n - 1);
        let bits = similarity(locals[i], titles[n - 1]);
        if bits >= ALIKE {
            prev.push(Pair { local: i as usize, track: (n - 1) as usize, bits })
        } else {
            prev
        }
    }
}

/// The pairs of the first `n` local titles with `titles`.
pub open spec fn alike_pairs(locals: Seq<Seq<char>>, titles: Seq<Seq<char>>, n: int) -> Seq<Pair>
    decreases n,
{
    if n <= 0 {
        Seq::empty()
    } else {
        alike_pairs(locals, titles, n - 1) + row_pairs(locals, titles, n - 1, titles.len() as int)
    }
}

/// Whether titles that are equal but for their case are wholly similar, and
/// none are more similar.
pub open spec fn equal_titles_are_whole(locals: Seq<Seq<char>>, titles: Seq<Seq<char>>) -> bool {
    forall|i: int, j: int|
        0 <= i < locals.len() && 0 <= j < titles.len() ==> {
            let s = #[trigger] similarity(locals[i], titles[j]);
            s <= ONE && (each_lowered(locals[i]) == each_lowered(titles[j]) ==> s == ONE)
        }
}

/// The pairs of local titles and tracks that are alike, local titles first.
fn pair_up(locals: &Vec<String>, tracks: &Vec<MbTrack>) -> (r: Vec<Pair>)
    ensures
        r@ == alike_pairs(views(locals@), titles_of(tracks@), locals@.len() as int),
        forall|k: int| 0 <= k < r@.len() ==> (#[trigger] r@[k]).bits <= ONE,
        forall|k: int| 0 <= k < r@.len() ==> (#[trigger] r@[k]).local < locals@.len(),
        equal_titles_are_whole(views(locals@), titles_of(tracks@)),
{
    let ghost ls = views(locals@);
    let ghost ts = titles_of(tracks@);
    let mut out: Vec<Pair> = Vec::new();
    let mut i: usize = 0;
    while i < locals.len()
        invariant
            i <= locals@.len(),
            ls == views(locals@),
            ts == titles_of(tracks@),
            out@ == alike_pairs(ls, ts, i as int),
            forall|k: int| 0 <= k < out@.len() ==> (#[trigger] out@[k]).bits <= ONE,
            forall|k: int| 0 <= k < out@.len() ==> (#[trigger] out@[k]).local < locals@.len(),
            equal_titles_are_whole(ls.take(i as int), ts),
        decreases locals@.len() - i,
    {
        let ghost before = out@;
        let mut j: usize = 0;
        assert(before + row_pairs(ls, ts, i as int, 0) =~= before);
        while j < tracks.len()
            invariant
                i < locals@.len(),
                j <= tracks@.len(),
                ls == views(locals@),
                ts == titles_of(tracks@),
                out@ == before + row_pairs(ls, ts, i as int, j as int),
                forall|k: int| 0 <= k < out@.len() ==> (#[trigger] out@[k]).bits <= ONE,
                forall|k: int| 0 <= k < out@.len() ==> (#[trigger] out@[k]).local < locals@.len(),
                forall|k: int|
                    0 <= k < j ==> {
                        let s = #[trigger] similarity(ls[i as int], ts[k]);
                        s <= ONE && (each_lowered(ls[i as int]) == each_lowered(ts[k]) ==> s == ONE)
                    },
            decreases tracks@.len() - j,
        {
            let bits: u64 = sim(locals[i].as_str(), tracks[j].title.as_str());
            assert(ls[i as int] == locals@[i as int]@ && ts[j as int] == tracks@[j as int].title@);
            if bits >= ALIKE {
                out.push(Pair { local: i, track: j, bits });
                assert(out@ =~= before + row_pairs(ls, ts, i as int, j + 1));
            }
            j += 1;
        }
        assert forall|x: int, y: int| 0 <= x < i + 1 && 0 <= y < ts.len() implies {
            let s = #[trigger] similarity(ls.take(i + 1)[x], ts[y]);
            s <= ONE && (each_lowered(ls.take(i + 1)[x]) == each_lowered(ts[y]) ==> s == ONE)
        } by {
            if x < i {
                assert(ls.take(i + 1)[x] == ls.take(i as int)[x]);
                assert(similarity(ls.take(i as int)[x], ts[y]) <= ONE);
            } else {
                assert(similarity(ls[i as int], ts[y]) <= ONE);
            }
        }
        i += 1;
    }
    assert(ls.take(i as int) =~= ls);
    out
}

/// The more similar pair first.
pub open spec fn best_first(pairs: Seq<Pair>) -> spec_fn(int, int) -> bool {
    |i: int, j: int| pairs[i].bits >= pairs[j].bits
}

/// Whether two pairs are about one local title or one track.
pub open spec fn clash(a: Pair, b: Pair) -> bool {
    a.local == b.local || a.track == b.track
}

/// Whether `p` clashes with a pair of `taken`.
pub open spec fn clashes(taken: Seq<Pair>, p: Pair) -> bool {
    exists|x: int| 0 <= x < taken.len() && clash(#[trigger] taken[x], p)
}

/// The pairs taken when the first `n` pairs of `order` are gone through and
/// each is taken whose title and track are both still free.
pub open spec fn taken(pairs: Seq<Pair>, order: Seq<usize>, n: int) -> Seq<Pair>
    decreases n,
{
    if n <= 0 {
        Seq::empty()
    } else {
        let prev = taken(pairs, order, n - 1);
        let p = pairs[order[n - 1] as int];
        if clashes(prev, p) { prev } else { prev.push(p) }
    }
}

/// The similarities of `pairs`.
pub open spec fn bits_of(pairs: Seq<Pair>) -> Seq<u64> {
    pairs.map_values(|p: Pair| p.bits)
}

/// `bits` are the similarities of the pairs that are taken when the most
/// similar pairs go first.
pub open spec fn best_matching(
    locals: Seq<Seq<char>>,
    titles: Seq<Seq<char>>,
    bits: Seq<u64>,
) -> bool {
    let pairs = alike_pairs(locals, titles, locals.len() as int);
    exists|order: Seq<usize>| #[trigger]
        stably_ordered(order, best_first(pairs), pairs.len() as int) && bits == bits_of(
            taken(pairs, order, order.len() as int),
        )
}

/// Whether `p` clashes with a pair of `list`.
fn is_claimed(list: &Vec<Pair>, p: Pair) -> (r: bool)
    ensures
        r == clashes(list@, p),
{
    let mut i: usize = 0;
    while i < list.len()
        invariant
            i <= list@.len(),
            forall|x: int| 0 <= x < i ==> !clash(#[trigger] list@[x], p),
        decreases list@.len() - i,
    {
        if list[i].local == p.local || list[i].track == p.track {
            assert(clash(list@[i as int], p));
            return true;
        }
        i += 1;
    }
    false
}

/// The similarities of the local titles that find a track of their own, the
/// most similar pairs first. Matching is by title alone, not by position.
pub fn match_titles(locals: &Vec<String>, tracks: &Vec<MbTrack>) -> (r: Vec<u64>)
    ensures
        best_matching(views(locals@), titles_of(tracks@), r@),
        equal_titles_are_whole(views(locals@), titles_of(tracks@)),
        r@.len() <= locals@.len(),
        forall|k: int| 0 <= k < r@.len() ==> #[trigger] r@[k] <= ONE,
{
    let pairs = pair_up(locals, tracks);
    let ghost le = best_first(pairs@);
    let n: usize = pairs.len();
    let above = |i: usize, j: usize| -> (b: bool)
        requires
            pairs@.len() > i,
            pairs@.len() > j,
        ensures
            b == le(i as int, j as int),
        { pairs[i].bits >= pairs[j].bits };
    let order = stable_order(n, above, Ghost(le));
    let mut list: Vec<Pair> = Vec::new();
    let mut out: Vec<u64> = Vec::new();
    let mut k: usize = 0;
    while k < order.len()
        invariant
            k <= order@.len(),
            n == pairs@.len(),
            stably_ordered(order@, le, n as int),
            list@ == taken(pairs@, order@, k as int),
            out@ == bits_of(list@),
            forall|k: int| 0 <= k < pairs@.len() ==> (#[trigger] pairs@[k]).bits <= ONE,
            forall|k: int| 0 <= k < out@.len() ==> #[trigger] out@[k] <= ONE,
        decreases order@.len() - k,
    {
        let ghost before = list@;
        let p = pairs[order[k]];
        if !is_claimed(&list, p) {
            list.push(p);
            out.push(p.bits);
            assert(bits_of(list@) =~= bits_of(before).push(p.bits));
        }
        k += 1;
    }
    proof {
        assert(views(locals@).len() == locals@.len());
        assert(stably_ordered(order@, best_first(pairs@), pairs@.len() as int));
        let m = order@.len() as int;
        let locs = list@.map_values(|p: Pair| p.local as int);
        law_titles_pair_one_to_one(pairs@, order@, m);
        assert forall|a: int, b: int|
            0 <= a < locs.len() && 0 <= b < locs.len() && a != b implies locs[a] != locs[b] by {
            if a < b {
                assert(!clash(list@[a], list@[b]));
            } else {
                assert(!clash(list@[b], list@[a]));
            }
        }
        assert forall|a: int| 0 <= a < locs.len() implies 0 <= #[trigger] locs[a] < locals@.len() by {
            lemma_taken_from(pairs@, order@, m, a);
            let x = choose|x: int| 0 <= x < m && pairs@[#[trigger] order@[x] as int] == list@[a];
            assert(order@[x] < pairs@.len());
        }
        lemma_distinct_below(locs, locals@.len() as int);
    }
    out
}

/// Different numbers below `n` are at most `n`.
proof fn lemma_distinct_below(s: Seq<int>, n: int)
    requires
        0 <= n,
        s.no_duplicates(),
        forall|i: int| 0 <= i < s.len() ==> 0 <= #[trigger] s[i] < n,
    ensures
        s.len() <= n,
{
    s.unique_seq_to_set();
    vstd::set_lib::lemma_int_range(0, n);
    assert(s.to_set().subset_of(vstd::set_lib::set_int_range(0, n)));
    vstd::set_lib::lemma_len_subset(s.to_set(), vstd::set_lib::set_int_range(0, n));
}

/// A local title is paired with one track at most, and a track with one
/// local title.
pub proof fn law_titles_pair_one_to_one(pairs: Seq<Pair>, order: Seq<usize>, n: int)
    ensures
        forall|a: int, b: int|
            0 <= a < b < taken(pairs, order, n).len() ==> !clash(
                #[trigger] taken(pairs, order, n)[a],
                #[trigger] taken(pairs, order, n)[b],
            ),
    decreases n,
{
    if n > 0 {
        law_titles_pair_one_to_one(pairs, order, n - 1);
        let prev = taken(pairs, order, n - 1);
        let p = pairs[order[n - 1] as int];
        let now = taken(pairs, order, n);
        assert forall|a: int, b: int| 0 <= a < b < now.len() implies !clash(
            #[trigger] now[a],
            #[trigger] now[b],
        ) by {
            assert(now[a] == prev[a]);
            if b < prev.len() {
                assert(now[b] == prev[b]);
            } else {
                assert(now[b] == p);
                assert(!clash(prev[a], p));
            }
        }
    }
}

/// A pair that is passed over has lost its title or its track to a pair at
/// least as similar.
pub proof fn law_pairing_is_greedy(pairs: Seq<Pair>, order: Seq<usize>, n: int, k: int)
    requires
        stably_ordered(order, best_first(pairs), pairs.len() as int),
        0 <= k < n <= order.len(),
    ensures
        exists|x: int|
            0 <= x < taken(pairs, order, n).len() && clash(
                #[trigger] taken(pairs, order, n)[x],
                pairs[order[k] as int],
            ) && taken(pairs, order, n)[x].bits >= pairs[order[k] as int].bits,
    decreases n,
{
    let prev = taken(pairs, order, n - 1);
    let now = taken(pairs, order, n);
    let p = pairs[order[k] as int];
    if k < n - 1 {
        law_pairing_is_greedy(pairs, order, n - 1, k);
        let x = choose|x: int|
            0 <= x < prev.len() && clash(#[trigger] prev[x], p) && prev[x].bits >= p.bits;
        assert(now[x] == prev[x]);
    } else if clashes(prev, p) {
        let x = choose|x: int| 0 <= x < prev.len() && clash(#[trigger] prev[x], p);
        lemma_taken_from(pairs, order, n - 1, x);
        let m = choose|m: int| 0 <= m < n - 1 && pairs[#[trigger] order[m] as int] == prev[x];
        assert(comes_before(best_first(pairs), order[m] as int, order[k] as int));
        assert(now[x] == prev[x]);
    } else {
        assert(now[now.len() - 1] == p);
    }
}

/// What is taken comes out of the pairs gone through.
proof fn lemma_taken_from(pairs: Seq<Pair>, order: Seq<usize>, n: int, x: int)
    requires
        n <= order.len(),
        0 <= x < taken(pairs, order, n).len(),
    ensures
        exists|m: int| 0 <= m < n && pairs[#[trigger] order[m] as int] == taken(pairs, order, n)[x],
    decreases n,
{
    let prev = taken(pairs, order, n - 1);
    if x < prev.len() {
        lemma_taken_from(pairs, order, n - 1, x);
        let m = choose|m: int| 0 <= m < n - 1 && pairs[#[trigger] order[m] as int] == prev[x];
        assert(pairs[order[m] as int] == taken(pairs, order, n)[x]);
    } else {
        assert(pairs[order[n - 1] as int] == taken(pairs, order, n)[x]);
    }
}

// ---------------------------------------------------------------------------
// Equal titles

proof fn lemma_row_pairs(locals: Seq<Seq<char>>, titles: Seq<Seq<char>>, i: int, n: int)
    requires
        0 <= i < locals.len() <= usize::MAX,
        n <= titles.len() <= usize::MAX,
    ensures
        forall|k: int|
            0 <= k < row_pairs(locals, titles, i, n).len() ==> {
                let p = #[trigger] row_pairs(locals, titles, i, n)[k];
                p.local == i && p.track < titles.len() && p.bits == similarity(
                    locals[i],
                    titles[p.track as int],
                )
            },
        forall|j: int|
            0 <= j < n && similarity(locals[i], #[trigger] titles[j]) >= ALIKE ==> row_pairs(
                locals,
                titles,
                i,
                n,
            ).contains(
                Pair {
                    local: i as usize,
                    track: j as usize,
                    bits: similarity(locals[i], titles[j]),
                },
            ),
    decreases n,
{
    if n > 0 {
        lemma_row_pairs(locals, titles, i, n - 1);
        let prev = row_pairs(locals, titles, i, n - 1);
        let now = row_pairs(locals, titles, i, n);
        assert forall|j: int|
            0 <= j < n && similarity(locals[i], #[trigger] titles[j]) >= ALIKE implies now.contains(
            Pair { local: i as usize, track: j as usize, bits: similarity(locals[i], titles[j]) },
        ) by {
            let p = Pair {
                local: i as usize,
                track: j as usize,
                bits: similarity(locals[i], titles[j]),
            };
            if j < n - 1 {
                assert(prev.contains(p));
                assert(now[prev.index_of(p)] == p);
            } else {
                assert(now[now.len() - 1] == p);
            }
        }
    }
}

proof fn lemma_alike_pairs(locals: Seq<Seq<char>>, titles: Seq<Seq<char>>, n: int)
    requires
        n <= locals.len() <= usize::MAX,
        titles.len() <= usize::MAX,
    ensures
        forall|k: int|
            0 <= k < alike_pairs(locals, titles, n).len() ==> {
                let p = #[trigger] alike_pairs(locals, titles, n)[k];
                p.local < n && p.track < titles.len() && p.bits == similarity(
                    locals[p.local as int],
                    titles[p.track as int],
                )
            },
        forall|i: int, j: int|
            0 <= i < n && 0 <= j < titles.len() && #[trigger] similarity(locals[i], titles[j])
                >= ALIKE ==> alike_pairs(locals, titles, n).contains(
                Pair {
                    local: i as usize,
                    track: j as usize,
                    bits: similarity(locals[i], titles[j]),
                },
            ),
    decreases n,
{
    if n > 0 {
        lemma_alike_pairs(locals, titles, n - 1);
        lemma_row_pairs(locals, titles, n - 1, titles.len() as int);
        let a = alike_pairs(locals, titles, n - 1);
        let b = row_pairs(locals, titles, n - 1, titles.len() as int);
        assert forall|i: int, j: int|
            0 <= i < n && 0 <= j < titles.len() && #[trigger] similarity(locals[i], titles[j])
                >= ALIKE implies (a + b).contains(
            Pair { local: i as usize, track: j as usize, bits: similarity(locals[i], titles[j]) },
        ) by {
            let p = Pair {
                local: i as usize,
                track: j as usize,
                bits: similarity(locals[i], titles[j]),
            };
            if i < n - 1 {
                assert(a.contains(p));
                assert((a + b)[a.index_of(p)] == p);
            } else {
                assert(titles[j] == titles[j]);
                assert(b.contains(p));
                assert((a + b)[a.len() + b.index_of(p)] == p);
            }
        }
    }
}

/// Different numbers that all stand in a list are no more than the list.
proof fn lemma_distinct_within(s: Seq<int>, t: Seq<int>)
    requires
        s.no_duplicates(),
        forall|i: int| 0 <= i < s.len() ==> t.contains(#[trigger] s[i]),
    ensures
        s.len() <= t.len(),
{
    s.unique_seq_to_set();
    t.lemma_cardinality_of_set();
    assert forall|x: int| s.to_set().contains(x) implies t.to_set().contains(x) by {
        let i = s.index_of(x);
        assert(t.contains(s[i]));
    }
    vstd::set_lib::lemma_len_subset(s.to_set(), t.to_set());
}

proof fn lemma_order_has_all(order: Seq<usize>, le: spec_fn(int, int) -> bool, n: int, k: int)
    requires
        stably_ordered(order, le, n),
        0 <= k < n,
    ensures
        exists|m: int| 0 <= m < order.len() && #[trigger] order[m] == k,
{
    let s = order.map_values(|i: usize| i as int);
    if !s.contains(k) {
        let all = s.push(k);
        assert forall|a: int, b: int| 0 <= a < b < all.len() implies all[a] != all[b] by {
            if b < s.len() {
                assert(order[a] != order[b]);
            } else {
                assert(s.contains(s[a]));
            }
        }
        assert forall|a: int| 0 <= a < all.len() implies 0 <= #[trigger] all[a] < n by {
            if a < s.len() {
                assert(order[a] < n);
            }
        }
        lemma_distinct_below(all, n);
    }
    let m = s.index_of(k);
    assert(order[m] == k);
}

/// The texts of `v`, each character in lower case.
pub open spec fn lowered_all(v: Seq<Seq<char>>) -> Seq<Seq<char>> {
    v.map_values(|s: Seq<char>| each_lowered(s))
}

/// Whether `to` takes the positions of `a` to different positions of `b`,
/// each to an equal text.
pub open spec fn occurs_in(a: Seq<Seq<char>>, b: Seq<Seq<char>>, to: Seq<int>) -> bool {
    &&& to.len() == a.len()
    &&& to.no_duplicates()
    &&& forall|i: int| 0 <= i < to.len() ==> 0 <= #[trigger] to[i] < b.len() && a[i] == b[to[i]]
}

/// The positions below `n` whose text is `key`.
spec fn positions(keys: Seq<Seq<char>>, key: Seq<char>, n: int) -> Seq<int>
    decreases n,
{
    if n <= 0 {
        Seq::empty()
    } else if keys[n - 1] == key {
        positions(keys, key, n - 1).push(n - 1)
    } else {
        positions(keys, key, n - 1)
    }
}

proof fn lemma_positions(keys: Seq<Seq<char>>, key: Seq<char>, n: int)
    requires
        n <= keys.len(),
    ensures
        forall|i: int|
            0 <= i < positions(keys, key, n).len() ==> 0 <= #[trigger] positions(keys, key, n)[i] < n
                && keys[positions(keys, key, n)[i]] == key,
        positions(keys, key, n).no_duplicates(),
        forall|x: int|
            0 <= x < n && #[trigger] keys[x] == key ==> positions(keys, key, n).contains(x),
    decreases n,
{
    if n > 0 {
        lemma_positions(keys, key, n - 1);
        let prev = positions(keys, key, n - 1);
        let now = positions(keys, key, n);
        assert forall|x: int| 0 <= x < n && #[trigger] keys[x] == key implies now.contains(x) by {
            if x < n - 1 {
                assert(prev.contains(x));
                assert(now[prev.index_of(x)] == x);
            } else {
                assert(now[now.len() - 1] == x);
            }
        }
    }
}

/// The whole matches among the first `n` pairs whose local title is `key`.
spec fn matched(ps: Seq<Pair>, keys: Seq<Seq<char>>, key: Seq<char>, n: int) -> Seq<Pair>
    decreases n,
{
    if n <= 0 {
        Seq::empty()
    } else if ps[n - 1].bits == ONE && keys[ps[n - 1].local as int] == key {
        matched(ps, keys, key, n - 1).push(ps[n - 1])
    } else {
        matched(ps, keys, key, n - 1)
    }
}

proof fn lemma_matched(ps: Seq<Pair>, keys: Seq<Seq<char>>, key: Seq<char>, n: int)
    requires
        n <= ps.len(),
        forall|a: int, b: int| 0 <= a < b < ps.len() ==> !clash(#[trigger] ps[a], #[trigger] ps[b]),
    ensures
        forall|k: int|
            0 <= k < matched(ps, keys, key, n).len() ==> {
                let p = #[trigger] matched(ps, keys, key, n)[k];
                p.bits == ONE && keys[p.local as int] == key && exists|m: int|
                    0 <= m < n && #[trigger] ps[m] == p
            },
        forall|a: int, b: int|
            0 <= a < b < matched(ps, keys, key, n).len() ==> !clash(
                #[trigger] matched(ps, keys, key, n)[a],
                #[trigger] matched(ps, keys, key, n)[b],
            ),
        forall|m: int|
            0 <= m < n && (#[trigger] ps[m]).bits == ONE && keys[ps[m].local as int] == key
                ==> matched(ps, keys, key, n).contains(ps[m]),
    decreases n,
{
    if n > 0 {
        lemma_matched(ps, keys, key, n - 1);
        let prev = matched(ps, keys, key, n - 1);
        let now = matched(ps, keys, key, n);
        assert forall|k: int| 0 <= k < now.len() implies {
            let p = #[trigger] now[k];
            p.bits == ONE && keys[p.local as int] == key && exists|m: int|
                0 <= m < n && #[trigger] ps[m] == p
        } by {
            if k < prev.len() {
                assert(now[k] == prev[k]);
                let m = choose|m: int| 0 <= m < n - 1 && #[trigger] ps[m] == prev[k];
                assert(ps[m] == now[k]);
            } else {
                assert(ps[n - 1] == now[k]);
            }
        }
        assert forall|a: int, b: int| 0 <= a < b < now.len() implies !clash(
            #[trigger] now[a],
            #[trigger] now[b],
        ) by {
            assert(now[a] == prev[a]);
            if b < prev.len() {
                assert(now[b] == prev[b]);
            } else {
                let m = choose|m: int| 0 <= m < n - 1 && #[trigger] ps[m] == prev[a];
                assert(!clash(ps[m], ps[n - 1]));
            }
        }
        assert forall|m: int|
            0 <= m < n && (#[trigger] ps[m]).bits == ONE && keys[ps[m].local as int]
                == key implies now.contains(ps[m]) by {
            if m < n - 1 {
                assert(prev.contains(ps[m]));
                assert(now[prev.index_of(ps[m])] == ps[m]);
            } else {
                assert(now[now.len() - 1] == ps[m]);
            }
        }
    }
}

/// Where every two titles of one text clash with a whole match, each local
/// title has a whole match.
proof fn lemma_each_is_matched(
    ps: Seq<Pair>,
    a: Seq<Seq<char>>,
    b: Seq<Seq<char>>,
    to: Seq<int>,
    i: int,
)
    requires
        occurs_in(a, b, to),
        0 <= i < a.len(),
        forall|x: int, y: int| 0 <= x < y < ps.len() ==> !clash(#[trigger] ps[x], #[trigger] ps[y]),
        forall|m: int|
            0 <= m < ps.len() && (#[trigger] ps[m]).bits == ONE ==> ps[m].local < a.len()
                && ps[m].track < b.len() && a[ps[m].local as int] == b[ps[m].track as int],
        forall|x: int, y: int|
            0 <= x < a.len() && 0 <= y < b.len() && #[trigger] a[x] == #[trigger] b[y] ==> exists|
                m: int,
            |
                0 <= m < ps.len() && (#[trigger] ps[m]).bits == ONE && (ps[m].local == x
                    || ps[m].track == y),
    ensures
        exists|m: int| 0 <= m < ps.len() && (#[trigger] ps[m]).bits == ONE && ps[m].local == i,
{
    if !exists|m: int| 0 <= m < ps.len() && (#[trigger] ps[m]).bits == ONE && ps[m].local == i {
        let key = a[i];
        let n = a.len() as int;
        let s = matched(ps, a, key, ps.len() as int);
        lemma_matched(ps, a, key, ps.len() as int);
        let mine = positions(a, key, n);
        lemma_positions(a, key, n);
        let tracks = s.map_values(|p: Pair| p.track as int);
        let locals = s.map_values(|p: Pair| p.local as int);
        // Every title of this text is taken.
        let theirs = mine.map_values(|x: int| to[x]);
        assert(theirs.no_duplicates()) by {
            assert forall|x: int, y: int| 0 <= x < y < theirs.len() implies theirs[x] != theirs[y] by {
                assert(mine[x] != mine[y]);
                assert(to[mine[x]] != to[mine[y]]);
            }
        }
        assert forall|x: int| 0 <= x < theirs.len() implies tracks.contains(#[trigger] theirs[x]) by {
            let y = theirs[x];
            assert(0 <= mine[x] < n && a[mine[x]] == key);
            assert(y == to[mine[x]] && 0 <= to[mine[x]] < b.len() && a[mine[x]] == b[to[mine[x]]]);
            assert(a[i] == b[y]);
            let m = choose|m: int|
                0 <= m < ps.len() && (#[trigger] ps[m]).bits == ONE && (ps[m].local == i
                    || ps[m].track == y);
            assert(ps[m].track == y);
            assert(a[ps[m].local as int] == b[y]);
            assert(s.contains(ps[m]));
            let z = s.index_of(ps[m]);
            assert(tracks[z] == y);
        }
        lemma_distinct_within(theirs, tracks);
        // Yet this local title is not among the local titles that have them.
        let more = locals.push(i);
        assert(more.no_duplicates()) by {
            assert forall|x: int, y: int| 0 <= x < y < more.len() implies more[x] != more[y] by {
                if y < locals.len() {
                    assert(!clash(s[x], s[y]));
                } else {
                    let m = choose|m: int| 0 <= m < ps.len() && #[trigger] ps[m] == s[x];
                    assert(ps[m].bits == ONE);
                }
            }
        }
        assert forall|x: int| 0 <= x < more.len() implies mine.contains(#[trigger] more[x]) by {
            if x < locals.len() {
                let m = choose|m: int| 0 <= m < ps.len() && #[trigger] ps[m] == s[x];
                assert(ps[m].bits == ONE && ps[m].local < a.len());
                assert(a[s[x].local as int] == key);
            } else {
                assert(a[i] == key);
            }
        }
        lemma_distinct_within(more, mine);
    }
}

/// Whether only titles that are equal but for their case are wholly similar.
pub open spec fn whole_titles_are_equal(locals: Seq<Seq<char>>, titles: Seq<Seq<char>>) -> bool {
    forall|i: int, j: int|
        0 <= i < locals.len() && 0 <= j < titles.len() && #[trigger] similarity(
            locals[i],
            titles[j],
        ) == ONE ==> each_lowered(locals[i]) == each_lowered(titles[j])
}

/// Local titles that are those of the release but for their case, or some of
/// them, in whatever order, all match wholly.
pub proof fn law_equal_titles_match_in_any_order(
    locals: Seq<Seq<char>>,
    titles: Seq<Seq<char>>,
    to: Seq<int>,
    bits: Seq<u64>,
)
    requires
        locals.len() <= usize::MAX,
        titles.len() <= usize::MAX,
        occurs_in(lowered_all(locals), lowered_all(titles), to),
        best_matching(locals, titles, bits),
        equal_titles_are_whole(locals, titles),
        whole_titles_are_equal(locals, titles),
    ensures
        bits.len() == locals.len(),
        forall|k: int| 0 <= k < bits.len() ==> #[trigger] bits[k] == ONE,
{
    let pairs = alike_pairs(locals, titles, locals.len() as int);
    let order = choose|order: Seq<usize>| #[trigger]
        stably_ordered(order, best_first(pairs), pairs.len() as int) && bits == bits_of(
            taken(pairs, order, order.len() as int),
        );
    let n = locals.len() as int;
    let ps = taken(pairs, order, order.len() as int);
    let a = lowered_all(locals);
    let b = lowered_all(titles);
    lemma_alike_pairs(locals, titles, n);
    law_titles_pair_one_to_one(pairs, order, order.len() as int);
    assert forall|m: int| 0 <= m < ps.len() implies (#[trigger] ps[m]).local < n && ps[m].track
        < titles.len() && ps[m].bits == similarity(
        locals[ps[m].local as int],
        titles[ps[m].track as int],
    ) by {
        lemma_taken_from(pairs, order, order.len() as int, m);
        let x = choose|x: int| 0 <= x < order.len() && pairs[#[trigger] order[x] as int] == ps[m];
        assert(pairs[order[x] as int] == ps[m]);
    }
    assert forall|m: int| 0 <= m < ps.len() && (#[trigger] ps[m]).bits == ONE implies ps[m].local
        < a.len() && ps[m].track < b.len() && a[ps[m].local as int] == b[ps[m].track as int] by {
        let s = similarity(locals[ps[m].local as int], titles[ps[m].track as int]);
        assert(s == ONE);
    }
    assert forall|x: int, y: int|
        0 <= x < a.len() && 0 <= y < b.len() && #[trigger] a[x] == #[trigger] b[y] implies exists|
        m: int,
    | 0 <= m < ps.len() && (#[trigger] ps[m]).bits == ONE && (ps[m].local == x || ps[m].track == y) by {
        assert(each_lowered(locals[x]) == each_lowered(titles[y]));
        assert(similarity(locals[x], titles[y]) == ONE);
        let p = Pair { local: x as usize, track: y as usize, bits: ONE };
        assert(pairs.contains(p));
        let k = pairs.index_of(p);
        lemma_order_has_all(order, best_first(pairs), pairs.len() as int, k);
        let at = choose|at: int| 0 <= at < order.len() && #[trigger] order[at] == k;
        law_pairing_is_greedy(pairs, order, order.len() as int, at);
        let m = choose|m: int|
            0 <= m < ps.len() && clash(#[trigger] ps[m], pairs[order[at] as int]) && ps[m].bits
                >= pairs[order[at] as int].bits;
        assert(ps[m].bits == similarity(locals[ps[m].local as int], titles[ps[m].track as int]));
        assert(ps[m].bits == ONE);
    }
    let ls = ps.map_values(|p: Pair| p.local as int);
    assert forall|i: int| 0 <= i < n implies ls.contains(i) && exists|m: int|
        0 <= m < ps.len() && (#[trigger] ps[m]).bits == ONE && ps[m].local == i by {
        lemma_each_is_matched(ps, a, b, to, i);
        let m = choose|m: int| 0 <= m < ps.len() && (#[trigger] ps[m]).bits == ONE && ps[m].local == i;
        assert(ls[m] == i);
    }
    assert forall|k: int| 0 <= k < bits.len() implies #[trigger] bits[k] == ONE by {
        assert(bits[k] == ps[k].bits);
        let i = ps[k].local as int;
        assert(ls.contains(i));
        let m = choose|m: int| 0 <= m < ps.len() && (#[trigger] ps[m]).bits == ONE && ps[m].local == i;
        if m < k {
            assert(!clash(ps[m], ps[k]));
        } else if k < m {
            assert(!clash(ps[k], ps[m]));
        }
    }
    let all = Seq::new(n as nat, |i: int| i);
    assert(all.no_duplicates());
    assert forall|i: int| 0 <= i < all.len() implies ls.contains(#[trigger] all[i]) by {}
    lemma_distinct_within(all, ls);
    assert(ls.no_duplicates()) by {
        assert forall|x: int, y: int| 0 <= x < y < ls.len() implies ls[x] != ls[y] by {
            assert(!clash(ps[x], ps[y]));
        }
    }
    assert forall|x: int| 0 <= x < ls.len() implies 0 <= #[trigger] ls[x] < n by {
        assert(ps[x].local < n);
    }
    lemma_distinct_below(ls, n);
}

/// Part of an album matches wholly: where every local title is that of some
/// track but for its case, and no two local titles are alike but for it, each
/// has a whole match.
pub proof fn law_part_of_an_album_matches_wholly(
    locals: Seq<Seq<char>>,
    titles: Seq<Seq<char>>,
    bits: Seq<u64>,
)
    requires
        locals.len() <= usize::MAX,
        titles.len() <= usize::MAX,
        lowered_all(locals).no_duplicates(),
        forall|i: int|
            0 <= i < locals.len() ==> lowered_all(titles).contains(
                #[trigger] lowered_all(locals)[i],
            ),
        best_matching(locals, titles, bits),
        equal_titles_are_whole(locals, titles),
        whole_titles_are_equal(locals, titles),
    ensures
        bits.len() == locals.len(),
        forall|k: int| 0 <= k < bits.len() ==> #[trigger] bits[k] == ONE,
{
    let a = lowered_all(locals);
    let b = lowered_all(titles);
    let to = Seq::new(a.len(), |i: int| b.index_of(a[i]));
    assert forall|i: int| 0 <= i < to.len() implies 0 <= #[trigger] to[i] < b.len() && a[i]
        == b[to[i]] by {
        assert(b.contains(a[i]));
    }
    assert forall|i: int, j: int| 0 <= i < j < to.len() implies to[i] != to[j] by {
        assert(a[i] != a[j]);
        assert(a[i] == b[to[i]] && a[j] == b[to[j]]);
    }
    law_equal_titles_match_in_any_order(locals, titles, to, bits);
}

// ---------------------------------------------------------------------------
// Scores

/// What a factor of a score measures.
#[derive(Debug, Clone, Copy, PartialEq, Eq, Structural)]
pub enum Part {
    Api,
    TrackCount,
    Artist,
    Album,
    Year,
    Duration,
    Tracks,
    Country,
    Original,
}

/// The value of a factor, from zero to one.
#[derive(Debug)]
pub enum Measure {
    /// One integer over another.
    Ratio { num: u64, den: u64 },
    /// One similarity.
    Similarity { bits: u64 },
    /// The sum of similarities over a count.
    Mean { bits: Vec<u64>, of: u64 },
}

/// One factor of a score. Weights are in hundredths.
#[derive(Debug)]
pub struct Factor {
    pub part: Part,
    pub weight: u32,
    pub value: Measure,
}

/// A score: the mean of its factors, each with its weight, then multiplied
/// by each percentage of `keeps`.
///
/// A factor that cannot be judged is left out, so that its weight falls to
/// the others in proportion.
#[derive(Debug)]
pub struct MatchScore {
    pub factors: Vec<Factor>,
    pub keeps: Vec<u32>,
}

/// A factor's value as mathematics has it.
pub enum Quantity {
    Ratio(int, int),
    Similarity(u64),
    Mean(Seq<u64>, int),
}

/// A factor as mathematics has it.
pub struct FactorView {
    pub part: Part,
    pub weight: int,
    pub value: Quantity,
}

/// A measure as mathematics has it.
pub open spec fn value_of(m: Measure) -> Quantity {
    match m {
        Measure::Ratio { num, den } => Quantity::Ratio(num as int, den as int),
        Measure::Similarity { bits } => Quantity::Similarity(bits),
        Measure::Mean { bits, of } => Quantity::Mean(bits@, of as int),
    }
}

/// A factor as mathematics has it.
pub open spec fn factor_view(f: Factor) -> FactorView {
    FactorView { part: f.part, weight: f.weight as int, value: value_of(f.value) }
}

/// Factors as mathematics has them.
pub open spec fn factor_views(fs: Seq<Factor>) -> Seq<FactorView> {
    fs.map_values(|f: Factor| factor_view(f))
}

/// A factor where there is a value for it.
pub open spec fn factor_if(part: Part, weight: int, value: Option<Quantity>) -> Seq<FactorView> {
    match value {
        Some(value) => seq![FactorView { part, weight, value }],
        None => Seq::empty(),
    }
}

/// The artist factor. It is left out where the local artist is unknown, is
/// only a label for several artists, or is written in another script.
pub open spec fn artist_value(local: Seq<char>, candidate: Seq<char>) -> Option<Quantity> {
    let a = trimmed(local);
    if a.len() == 0 || various_artists(a) || no_common_script(a, candidate) {
        None
    } else {
        Some(Quantity::Similarity(similarity(a, candidate)))
    }
}

/// The album factor. It is left out where the titles are in different scripts.
pub open spec fn album_value(local: Seq<char>, candidate: Seq<char>) -> Option<Quantity> {
    let a = plain_title(local);
    let b = plain_title(candidate);
    if no_common_script(a, b) { None } else { Some(Quantity::Similarity(similarity(a, b))) }
}

/// The track count factor: half where a count is unknown, the plain ratio
/// where the release has more tracks, and its square where it has fewer.
pub open spec fn count_value(local: int, candidate: int) -> Quantity {
    if local == 0 || candidate == 0 {
        Quantity::Ratio(1, 2)
    } else if local == candidate {
        Quantity::Ratio(1, 1)
    } else if local < candidate {
        Quantity::Ratio(local, candidate)
    } else {
        Quantity::Ratio(candidate * candidate, local * local)
    }
}

/// The distance of two integers.
pub open spec fn distance(a: int, b: int) -> int {
    if a <= b { b - a } else { a - b }
}

/// The year factor, in tenths: ten, eight and five for years up to two
/// apart, then two less for each year, down to nothing.
pub open spec fn year_value(local: Option<i32>, candidate: Option<i32>) -> Option<Quantity> {
    match (local, candidate) {
        (Some(a), Some(b)) => {
            let d = distance(a as int, b as int);
            Some(
                Quantity::Ratio(
                    if d == 0 { 10 } else if d == 1 { 8 } else if d == 2 { 5 } else if d < 5 {
                        10 - 2 * d
                    } else { 0 },
                    10,
                ),
            )
        },
        _ => None,
    }
}

/// The known durations of `tracks`, added up.
pub open spec fn total_duration(tracks: Seq<MbTrack>) -> nat
    decreases tracks.len(),
{
    if tracks.len() == 0 {
        0
    } else {
        total_duration(tracks.drop_last()) + match tracks.last().duration_ms {
            Some(d) => d as nat,
            None => 0,
        }
    }
}

/// The duration factor: one less the difference in units of ten seconds a
/// track, and never below zero. It is left out where a duration is unknown
/// or the track counts differ, for part of an album cannot last as long.
pub open spec fn duration_value(
    local_ms: int,
    local_count: int,
    count: int,
    tracks: Seq<MbTrack>,
) -> Option<Quantity> {
    let ms = total_duration(tracks) as int;
    if local_ms == 0 || local_count == 0 || count == 0 || local_count != count || ms == 0 {
        None
    } else {
        let den = local_count * 10_000;
        let d = distance(local_ms, ms);
        Some(Quantity::Ratio(if d >= den { 0 } else { den - d }, den))
    }
}

/// The title factor: the similarities of the titles that were matched, over
/// the number of local titles.
pub open spec fn titles_value(
    locals: Seq<Seq<char>>,
    tracks: Seq<MbTrack>,
    bits: Seq<u64>,
) -> Option<Quantity> {
    if locals.len() == 0 || tracks.len() == 0 {
        None
    } else {
        Some(Quantity::Mean(bits, locals.len() as int))
    }
}

/// How far a country of release is preferred, in hundredths.
pub open spec fn country_rank(code: Seq<char>) -> int {
    if code == "XW"@ {
        100
    } else if code == "XE"@ {
        95
    } else if code == "GB"@ || code == "US"@ {
        90
    } else if code == "JP"@ {
        85
    } else if code == "DE"@ || code == "FR"@ || code == "NL"@ || code == "SE"@ || code == "IT"@
        || code == "ES"@ || code == "AU"@ || code == "CA"@ {
        80
    } else if code == "XU"@ {
        60
    } else {
        70
    }
}

/// The country factor.
pub open spec fn country_value(country: Option<String>) -> Option<Quantity> {
    match country {
        Some(code) => Some(Quantity::Ratio(country_rank(code@), 100)),
        None => None,
    }
}

/// How far a pressing `years` after the first is preferred, in hundredths.
pub open spec fn originality(years: int) -> int {
    if years <= 0 {
        100
    } else if years == 1 {
        75
    } else if years == 2 {
        55
    } else if years == 3 {
        40
    } else if years <= 5 {
        25
    } else if years <= 8 {
        15
    } else {
        8
    }
}

/// The originality factor.
pub open spec fn original_value(year: Option<i32>, first: Option<i32>) -> Option<Quantity> {
    match (year, first) {
        (Some(y), Some(m)) => Some(Quantity::Ratio(originality(y - m), 100)),
        _ => None,
    }
}

/// The factors of a score, given the similarities of the matched titles.
pub open spec fn score_factors(
    artist: Seq<char>,
    album: Seq<char>,
    year: Option<i32>,
    count: int,
    titles: Seq<Seq<char>>,
    ms: int,
    c: MbRelease,
    bits: Seq<u64>,
) -> Seq<FactorView> {
    factor_if(Part::Api, 10, Some(Quantity::Ratio(c.api_score as int, 100)))
        + factor_if(Part::TrackCount, 25, Some(count_value(count, c.track_count as int)))
        + factor_if(Part::Artist, 15, artist_value(artist, c.artist@))
        + factor_if(Part::Album, 15, album_value(album, c.title@))
        + factor_if(Part::Year, 15, year_value(year, c.year))
        + factor_if(Part::Duration, 5, duration_value(ms, count, c.track_count as int, c.tracks@))
        + factor_if(Part::Tracks, 20, titles_value(titles, c.tracks@, bits))
        + factor_if(Part::Country, 6, country_value(c.country))
        + factor_if(Part::Original, 8, original_value(c.year, c.group_min_year))
}

/// The percentages that a score is reduced to: pseudo-releases and bootlegs
/// stay in sight, below the releases proper.
pub open spec fn score_keeps(status: Option<String>) -> Seq<u32> {
    (if status_reads(status, "Pseudo-Release"@) { seq![85u32] } else { Seq::empty() }) + (
    if status_reads(status, "Bootleg"@) { seq![92u32] } else { Seq::empty() })
}

/// Whether a value lies between zero and one.
pub open spec fn in_unit(v: Quantity) -> bool {
    match v {
        Quantity::Ratio(num, den) => 0 <= num <= den && den > 0,
        Quantity::Similarity(bits) => bits <= ONE,
        Quantity::Mean(bits, of) => of > 0 && bits.len() <= of && forall|k: int|
            0 <= k < bits.len() ==> #[trigger] bits[k] <= ONE,
    }
}

/// How far a country of release is preferred, in hundredths.
fn country_preference(code: &str) -> (r: u64)
    ensures
        r == country_rank(code@),
{
    if same(code, "XW") {
        100
    } else if same(code, "XE") {
        95
    } else if same(code, "GB") || same(code, "US") {
        90
    } else if same(code, "JP") {
        85
    } else if same(code, "DE") || same(code, "FR") || same(code, "NL") || same(code, "SE") || same(
        code,
        "IT",
    ) || same(code, "ES") || same(code, "AU") || same(code, "CA") {
        80
    } else if same(code, "XU") {
        60
    } else {
        70
    }
}

/// How far a pressing `years` after the first is preferred, in hundredths.
fn originality_percent(years: i64) -> (r: u64)
    ensures
        r == originality(years as int),
{
    if years <= 0 {
        100
    } else if years == 1 {
        75
    } else if years == 2 {
        55
    } else if years == 3 {
        40
    } else if years <= 5 {
        25
    } else if years <= 8 {
        15
    } else {
        8
    }
}

/// A measure is an optional value.
spec fn is_value(m: Option<Measure>, v: Option<Quantity>) -> bool {
    match m {
        Some(m) => v == Some(value_of(m)),
        None => v is None,
    }
}

fn artist_measure(local: &str, candidate: &str) -> (r: Option<Measure>)
    ensures
        is_value(r, artist_value(local@, candidate@)),
        r is Some ==> in_unit(value_of(r->0)),
{
    let a = trim(local);
    let v = chars_of(a.as_str());
    if v.len() == 0 || is_various_artists_label(a.as_str()) || scripts_differ(
        a.as_str(),
        candidate,
    ) {
        None
    } else {
        Some(Measure::Similarity { bits: sim(a.as_str(), candidate) })
    }
}

fn album_measure(local: &str, candidate: &str) -> (r: Option<Measure>)
    ensures
        is_value(r, album_value(local@, candidate@)),
        r is Some ==> in_unit(value_of(r->0)),
{
    let a = normalize_title(local);
    let b = normalize_title(candidate);
    if scripts_differ(a.as_str(), b.as_str()) {
        None
    } else {
        Some(Measure::Similarity { bits: sim(a.as_str(), b.as_str()) })
    }
}

fn count_measure(local: u32, candidate: u32) -> (r: Measure)
    ensures
        value_of(r) == count_value(local as int, candidate as int),
        in_unit(value_of(r)),
{
    if local == 0 || candidate == 0 {
        Measure::Ratio { num: 1, den: 2 }
    } else if local == candidate {
        Measure::Ratio { num: 1, den: 1 }
    } else if local < candidate {
        Measure::Ratio { num: local as u64, den: candidate as u64 }
    } else {
        let c: u64 = candidate as u64;
        let l: u64 = local as u64;
        assert(0 <= c * c <= l * l <= u64::MAX && l * l > 0) by (nonlinear_arith)
            requires
                0 < c < l <= 0xffff_ffff,
        ;
        Measure::Ratio { num: c * c, den: l * l }
    }
}

fn year_measure(local: Option<i32>, candidate: Option<i32>) -> (r: Option<Measure>)
    ensures
        is_value(r, year_value(local, candidate)),
        r is Some ==> in_unit(value_of(r->0)),
{
    match (local, candidate) {
        (Some(a), Some(b)) => {
            let d: i64 = if a <= b { b as i64 - a as i64 } else { a as i64 - b as i64 };
            let num: u64 = if d == 0 {
                10
            } else if d == 1 {
                8
            } else if d == 2 {
                5
            } else if d < 5 {
                (10 - 2 * d) as u64
            } else {
                0
            };
            Some(Measure::Ratio { num, den: 10 })
        },
        _ => None,
    }
}

/// The known durations of `tracks`, added up.
fn add_durations(tracks: &Vec<MbTrack>) -> (r: u128)
    ensures
        r == total_duration(tracks@),
{
    let mut sum: u128 = 0;
    let n: usize = tracks.len();
    let mut i: usize = 0;
    while i < n
        invariant
            i <= n,
            n == tracks@.len(),
            sum == total_duration(tracks@.take(i as int)),
            sum <= i * 0xffff_ffff_ffff_ffff,
        decreases tracks@.len() - i,
    {
        assert(tracks@.take(i + 1).drop_last() =~= tracks@.take(i as int));
        if let Some(d) = tracks[i].duration_ms {
            sum = sum + d as u128;
        }
        i += 1;
    }
    assert(tracks@.take(tracks@.len() as int) =~= tracks@);
    sum
}

fn duration_measure(local_ms: u64, local_count: u32, count: u32, tracks: &Vec<MbTrack>) -> (r:
    Option<Measure>)
    ensures
        is_value(r, duration_value(local_ms as int, local_count as int, count as int, tracks@)),
        r is Some ==> in_unit(value_of(r->0)),
{
    let ms: u128 = add_durations(tracks);
    if local_ms == 0 || local_count == 0 || count == 0 || local_count != count || ms == 0 {
        return None;
    }
    let den: u64 = local_count as u64 * 10_000;
    let own: u128 = local_ms as u128;
    let d: u128 = if own <= ms { ms - own } else { own - ms };
    let num: u64 = if d >= den as u128 { 0 } else { den - d as u64 };
    Some(Measure::Ratio { num, den })
}

fn titles_measure(locals: &Vec<String>, tracks: &Vec<MbTrack>) -> (r: Option<Measure>)
    ensures
        exists|bits: Seq<u64>| #[trigger]
            best_matching(views(locals@), titles_of(tracks@), bits) && is_value(
                r,
                titles_value(views(locals@), tracks@, bits),
            ),
        r is Some ==> in_unit(value_of(r->0)),
{
    let bits = match_titles(locals, tracks);
    let ghost b = bits@;
    assert(views(locals@).len() == locals@.len());
    if locals.len() == 0 || tracks.len() == 0 {
        assert(best_matching(views(locals@), titles_of(tracks@), b) && is_value(
            None,
            titles_value(views(locals@), tracks@, b),
        ));
        None
    } else {
        let r = Some(Measure::Mean { bits, of: locals.len() as u64 });
        assert(best_matching(views(locals@), titles_of(tracks@), b) && is_value(
            r,
            titles_value(views(locals@), tracks@, b),
        ));
        r
    }
}

fn country_measure(country: &Option<String>) -> (r: Option<Measure>)
    ensures
        is_value(r, country_value(*country)),
        r is Some ==> in_unit(value_of(r->0)),
{
    match country {
        Some(code) => Some(Measure::Ratio { num: country_preference(code.as_str()), den: 100 }),
        None => None,
    }
}

fn original_measure(year: Option<i32>, first: Option<i32>) -> (r: Option<Measure>)
    ensures
        is_value(r, original_value(year, first)),
        r is Some ==> in_unit(value_of(r->0)),
{
    match (year, first) {
        (Some(y), Some(m)) => Some(
            Measure::Ratio { num: originality_percent(y as i64 - m as i64), den: 100 },
        ),
        _ => None,
    }
}

/// Every value lies between zero and one.
pub open spec fn all_in_unit(fs: Seq<FactorView>) -> bool {
    forall|i: int| 0 <= i < fs.len() ==> in_unit((#[trigger] fs[i]).value)
}

/// Adds a factor where there is a value for it.
fn include_factor(list: &mut Vec<Factor>, part: Part, weight: u32, value: Option<Measure>, Ghost(
    v,
): Ghost<Option<Quantity>>)
    requires
        is_value(value, v),
    ensures
        factor_views(final(list)@) == factor_views(old(list)@) + factor_if(part, weight as int, v),
        all_in_unit(factor_views(old(list)@)) && (value is Some ==> in_unit(value_of(value->0)))
            ==> all_in_unit(factor_views(final(list)@)),
{
    match value {
        Some(value) => {
            let ghost before = list@;
            list.push(Factor { part, weight, value });
            proof {
                let f = list@.last();
                assert(factor_views(list@) =~= factor_views(before).push(factor_view(f)));
                assert(factor_views(before) + factor_if(part, weight as int, v) =~= factor_views(
                    before,
                ).push(factor_view(f)));
            }
        },
        None => {
            assert(factor_views(list@) + Seq::<FactorView>::empty() =~= factor_views(list@));
        },
    }
}

/// Scores how well a local group of tracks matches a release.
///
/// Every value lies between zero and one where the relevance that the search
/// gave is at most a hundred. The weights of the first two factors are always
/// there, so the weights never add up to nothing.
pub fn score_release(
    local_artist: &str,
    local_album: &str,
    local_year: Option<i32>,
    local_track_count: u32,
    local_track_titles: &Vec<String>,
    local_total_duration_ms: u64,
    candidate: &MbRelease,
) -> (r: MatchScore)
    ensures
        exists|bits: Seq<u64>| #[trigger]
            best_matching(views(local_track_titles@), titles_of(candidate.tracks@), bits)
                && factor_views(r.factors@) == score_factors(
                local_artist@,
                local_album@,
                local_year,
                local_track_count as int,
                views(local_track_titles@),
                local_total_duration_ms as int,
                *candidate,
                bits,
            ),
        r.keeps@ == score_keeps(candidate.status),
        candidate.api_score <= 100 ==> all_in_unit(factor_views(r.factors@)),
{
    let c = candidate;
    let ghost titles = views(local_track_titles@);
    let artist = artist_measure(local_artist, c.artist.as_str());
    let album = album_measure(local_album, c.title.as_str());
    let year = year_measure(local_year, c.year);
    let duration = duration_measure(
        local_total_duration_ms,
        local_track_count,
        c.track_count,
        &c.tracks,
    );
    let tracks = titles_measure(local_track_titles, &c.tracks);
    let ghost bits = choose|bits: Seq<u64>| #[trigger]
        best_matching(titles, titles_of(c.tracks@), bits) && is_value(
            tracks,
            titles_value(titles, c.tracks@, bits),
        );
    let country = country_measure(&c.country);
    let original = original_measure(c.year, c.group_min_year);

    let ghost n = local_track_count as int;
    let ghost ms = local_total_duration_ms as int;
    let api = Some(Measure::Ratio { num: c.api_score as u64, den: 100 });
    let count = Some(count_measure(local_track_count, c.track_count));
    let mut factors: Vec<Factor> = Vec::new();
    let ghost v_api = Some(Quantity::Ratio(c.api_score as int, 100));
    let ghost v_count = Some(count_value(n, c.track_count as int));
    let ghost v_artist = artist_value(local_artist@, c.artist@);
    let ghost v_album = album_value(local_album@, c.title@);
    let ghost v_year = year_value(local_year, c.year);
    let ghost v_duration = duration_value(ms, n, c.track_count as int, c.tracks@);
    let ghost v_tracks = titles_value(titles, c.tracks@, bits);
    let ghost v_country = country_value(c.country);
    let ghost v_original = original_value(c.year, c.group_min_year);
    assert(factor_views(factors@) =~= Seq::<FactorView>::empty());
    assert(Seq::<FactorView>::empty() + factor_if(Part::Api, 10, v_api) =~= factor_if(
        Part::Api,
        10,
        v_api,
    ));
    include_factor(&mut factors, Part::Api, 10, api, Ghost(v_api));
    include_factor(&mut factors, Part::TrackCount, 25, count, Ghost(v_count));
    include_factor(&mut factors, Part::Artist, 15, artist, Ghost(v_artist));
    include_factor(&mut factors, Part::Album, 15, album, Ghost(v_album));
    include_factor(&mut factors, Part::Year, 15, year, Ghost(v_year));
    include_factor(&mut factors, Part::Duration, 5, duration, Ghost(v_duration));
    include_factor(&mut factors, Part::Tracks, 20, tracks, Ghost(v_tracks));
    include_factor(&mut factors, Part::Country, 6, country, Ghost(v_country));
    include_factor(&mut factors, Part::Original, 8, original, Ghost(v_original));

    let mut keeps: Vec<u32> = Vec::new();
    if c.is_pseudo_release() {
        keeps.push(85);
    }
    if reads(&c.status, "Bootleg") {
        keeps.push(92);
    }
    assert(keeps@ =~= score_keeps(c.status));
    MatchScore { factors, keeps }
}

/// The weights of factors, added up.
pub open spec fn total_weight(fs: Seq<FactorView>) -> int
    decreases fs.len(),
{
    if fs.len() == 0 { 0 } else { total_weight(fs.drop_last()) + fs.last().weight }
}

proof fn lemma_total_weight_adds(a: Seq<FactorView>, b: Seq<FactorView>)
    ensures
        total_weight(a + b) == total_weight(a) + total_weight(b),
    decreases b.len(),
{
    if b.len() == 0 {
        assert(a + b =~= a);
    } else {
        assert((a + b).drop_last() =~= a + b.drop_last());
        lemma_total_weight_adds(a, b.drop_last());
    }
}

proof fn lemma_weight_if(part: Part, weight: int, value: Option<Quantity>)
    requires
        weight >= 0,
    ensures
        0 <= total_weight(factor_if(part, weight, value)) <= weight,
        value is Some ==> total_weight(factor_if(part, weight, value)) == weight,
{
    let f = factor_if(part, weight, value);
    if f.len() > 0 {
        assert(f.drop_last() =~= Seq::<FactorView>::empty());
        assert(total_weight(f.drop_last()) == 0);
    }
}

/// The weights of a score never add up to nothing, and there is always as
/// much weight on the relevance and the track count.
pub proof fn law_weights_never_vanish(
    artist: Seq<char>,
    album: Seq<char>,
    year: Option<i32>,
    count: int,
    titles: Seq<Seq<char>>,
    ms: int,
    c: MbRelease,
    bits: Seq<u64>,
)
    ensures
        35 <= total_weight(score_factors(artist, album, year, count, titles, ms, c, bits)) <= 119,
{
    let f1 = factor_if(Part::Api, 10, Some(Quantity::Ratio(c.api_score as int, 100)));
    let f2 = factor_if(Part::TrackCount, 25, Some(count_value(count, c.track_count as int)));
    let f3 = factor_if(Part::Artist, 15, artist_value(artist, c.artist@));
    let f4 = factor_if(Part::Album, 15, album_value(album, c.title@));
    let f5 = factor_if(Part::Year, 15, year_value(year, c.year));
    let d = duration_value(ms, count, c.track_count as int, c.tracks@);
    let f6 = factor_if(Part::Duration, 5, d);
    let f7 = factor_if(Part::Tracks, 20, titles_value(titles, c.tracks@, bits));
    let f8 = factor_if(Part::Country, 6, country_value(c.country));
    let f9 = factor_if(Part::Original, 8, original_value(c.year, c.group_min_year));
    lemma_weight_if(Part::Api, 10, Some(Quantity::Ratio(c.api_score as int, 100)));
    lemma_weight_if(Part::TrackCount, 25, Some(count_value(count, c.track_count as int)));
    lemma_weight_if(Part::Artist, 15, artist_value(artist, c.artist@));
    lemma_weight_if(Part::Album, 15, album_value(album, c.title@));
    lemma_weight_if(Part::Year, 15, year_value(year, c.year));
    lemma_weight_if(Part::Duration, 5, d);
    lemma_weight_if(Part::Tracks, 20, titles_value(titles, c.tracks@, bits));
    lemma_weight_if(Part::Country, 6, country_value(c.country));
    lemma_weight_if(Part::Original, 8, original_value(c.year, c.group_min_year));
    lemma_total_weight_adds(f1, f2);
    lemma_total_weight_adds(f1 + f2, f3);
    lemma_total_weight_adds(f1 + f2 + f3, f4);
    lemma_total_weight_adds(f1 + f2 + f3 + f4, f5);
    lemma_total_weight_adds(f1 + f2 + f3 + f4 + f5, f6);
    lemma_total_weight_adds(f1 + f2 + f3 + f4 + f5 + f6, f7);
    lemma_total_weight_adds(f1 + f2 + f3 + f4 + f5 + f6 + f7, f8);
    lemma_total_weight_adds(f1 + f2 + f3 + f4 + f5 + f6 + f7 + f8, f9);
}

/// A release with fewer tracks than there are locally scores no better on
/// the count than one with as many tracks more.
pub proof fn law_missing_tracks_weigh_more(few: int, many: int)
    requires
        0 < few < many,
    ensures
        count_value(many, few)->Ratio_0 * count_value(few, many)->Ratio_1
            < count_value(few, many)->Ratio_0 * count_value(many, few)->Ratio_1,
{
    assert((few * few) * many < few * (many * many)) by (nonlinear_arith)
        requires
            0 < few < many,
    ;
}

// ---------------------------------------------------------------------------
// Laws of matched titles

/// How titles are matched. The similarities are those of pairs of a local
/// title and a track, all at least seven tenths. No title and no track is in
/// two pairs. Any two that are as similar as that are a pair, or one of them
/// is in a pair that is at least as similar.
pub proof fn law_titles_are_matched_best_first(
    locals: Seq<Seq<char>>,
    titles: Seq<Seq<char>>,
    bits: Seq<u64>,
) -> (ps: Seq<Pair>)
    requires
        locals.len() <= usize::MAX,
        titles.len() <= usize::MAX,
        best_matching(locals, titles, bits),
    ensures
        ps.len() == bits.len(),
        forall|k: int|
            0 <= k < ps.len() ==> {
                let p = #[trigger] ps[k];
                &&& p.local < locals.len()
                &&& p.track < titles.len()
                &&& bits[k] == similarity(locals[p.local as int], titles[p.track as int])
                &&& bits[k] >= 0x3fe6_6666_6666_6666
            },
        forall|j: int, k: int|
            0 <= j < k < ps.len() ==> (#[trigger] ps[j]).local != (#[trigger] ps[k]).local
                && ps[j].track != ps[k].track,
        forall|i: int, j: int|
            0 <= i < locals.len() && 0 <= j < titles.len() && #[trigger] similarity(
                locals[i],
                titles[j],
            ) >= 0x3fe6_6666_6666_6666 ==> exists|k: int|
                0 <= k < ps.len() && ((#[trigger] ps[k]).local == i || ps[k].track == j) && bits[k]
                    >= similarity(locals[i], titles[j]),
{
    let n = locals.len() as int;
    let pairs = alike_pairs(locals, titles, n);
    let order = choose|order: Seq<usize>| #[trigger]
        stably_ordered(order, best_first(pairs), pairs.len() as int) && bits == bits_of(
            taken(pairs, order, order.len() as int),
        );
    let m = order.len() as int;
    let ps = taken(pairs, order, m);
    lemma_alike_pairs(locals, titles, n);
    lemma_alike_bits(locals, titles, n);
    law_titles_pair_one_to_one(pairs, order, m);
    assert forall|k: int| 0 <= k < ps.len() implies {
        let p = #[trigger] ps[k];
        &&& p.local < locals.len()
        &&& p.track < titles.len()
        &&& bits[k] == similarity(locals[p.local as int], titles[p.track as int])
        &&& bits[k] >= 0x3fe6_6666_6666_6666
    } by {
        lemma_taken_from(pairs, order, m, k);
        let x = choose|x: int| 0 <= x < m && pairs[#[trigger] order[x] as int] == ps[k];
        assert(order[x] < pairs.len());
        assert(pairs[order[x] as int] == ps[k]);
        assert(bits[k] == ps[k].bits);
    }
    assert forall|j: int, k: int| 0 <= j < k < ps.len() implies (#[trigger] ps[j]).local != (
    #[trigger] ps[k]).local && ps[j].track != ps[k].track by {
        assert(!clash(ps[j], ps[k]));
    }
    assert forall|i: int, j: int|
        0 <= i < locals.len() && 0 <= j < titles.len() && #[trigger] similarity(locals[i], titles[j])
            >= 0x3fe6_6666_6666_6666 implies exists|k: int|
        0 <= k < ps.len() && ((#[trigger] ps[k]).local == i || ps[k].track == j) && bits[k]
            >= similarity(locals[i], titles[j]) by {
        let p = Pair {
            local: i as usize,
            track: j as usize,
            bits: similarity(locals[i], titles[j]),
        };
        assert(pairs.contains(p));
        let x = pairs.index_of(p);
        lemma_order_has_all(order, best_first(pairs), pairs.len() as int, x);
        let at = choose|at: int| 0 <= at < order.len() && #[trigger] order[at] == x;
        law_pairing_is_greedy(pairs, order, m, at);
        let k = choose|k: int|
            0 <= k < ps.len() && clash(#[trigger] ps[k], pairs[order[at] as int]) && ps[k].bits
                >= pairs[order[at] as int].bits;
        assert(bits[k] == ps[k].bits);
    }
    ps
}

proof fn lemma_row_bits(locals: Seq<Seq<char>>, titles: Seq<Seq<char>>, i: int, n: int)
    ensures
        forall|k: int|
            0 <= k < row_pairs(locals, titles, i, n).len() ==> (#[trigger] row_pairs(
                locals,
                titles,
                i,
                n,
            )[k]).bits >= ALIKE,
    decreases n,
{
    if n > 0 {
        lemma_row_bits(locals, titles, i, n - 1);
        let prev = row_pairs(locals, titles, i, n - 1);
        let now = row_pairs(locals, titles, i, n);
        assert forall|k: int| 0 <= k < now.len() implies (#[trigger] now[k]).bits >= ALIKE by {
            if k < prev.len() {
                assert(now[k] == prev[k]);
            }
        }
    }
}

proof fn lemma_alike_bits(locals: Seq<Seq<char>>, titles: Seq<Seq<char>>, n: int)
    ensures
        forall|k: int|
            0 <= k < alike_pairs(locals, titles, n).len() ==> (#[trigger] alike_pairs(
                locals,
                titles,
                n,
            )[k]).bits >= ALIKE,
    decreases n,
{
    if n > 0 {
        lemma_alike_bits(locals, titles, n - 1);
        lemma_row_bits(locals, titles, n - 1, titles.len() as int);
        let a = alike_pairs(locals, titles, n - 1);
        let b = row_pairs(locals, titles, n - 1, titles.len() as int);
        assert forall|k: int| 0 <= k < (a + b).len() implies (#[trigger] (a + b)[k]).bits >= ALIKE by {
            if k < a.len() {
                assert((a + b)[k] == a[k]);
            } else {
                assert((a + b)[k] == b[k - a.len()]);
            }
        }
    }
}

// ---------------------------------------------------------------------------
// Laws of scores

/// The factor of a score that measures `part`.
pub open spec fn factor_for(fs: Seq<FactorView>, part: Part) -> Option<FactorView>
    decreases fs.len(),
{
    if fs.len() == 0 {
        None
    } else if fs[0].part == part {
        Some(fs[0])
    } else {
        factor_for(fs.skip(1), part)
    }
}

/// Whether a value is as high as it can be.
pub open spec fn is_whole(v: Quantity) -> bool {
    match v {
        Quantity::Ratio(num, den) => num == den,
        Quantity::Similarity(bits) => bits == ONE,
        Quantity::Mean(bits, of) => bits.len() == of && forall|k: int|
            0 <= k < bits.len() ==> #[trigger] bits[k] == ONE,
    }
}

proof fn lemma_factor_past(a: Seq<FactorView>, b: Seq<FactorView>, part: Part)
    ensures
        (forall|i: int| 0 <= i < a.len() ==> (#[trigger] a[i]).part != part) ==> factor_for(
            a + b,
            part,
        ) == factor_for(b, part),
        a.len() == 1 && a[0].part == part ==> factor_for(a + b, part) == Some(a[0]),
    decreases a.len(),
{
    if a.len() == 0 {
        assert(a + b =~= b);
    } else {
        assert((a + b)[0] == a[0]);
        assert((a + b).skip(1) =~= a.skip(1) + b);
        lemma_factor_past(a.skip(1), b, part);
        if forall|i: int| 0 <= i < a.len() ==> (#[trigger] a[i]).part != part {
            assert forall|i: int| 0 <= i < a.skip(1).len() implies (#[trigger] a.skip(1)[i]).part
                != part by {
                assert(a.skip(1)[i] == a[i + 1]);
            }
            assert(a[0].part != part);
        }
    }
}

/// What each factor of a score is measured from, and how much it weighs, in
/// hundredths. Relevance and track count are always measured; every other
/// factor is there just where it can be judged.
pub proof fn law_scores_weigh_each_factor(
    artist: Seq<char>,
    album: Seq<char>,
    year: Option<i32>,
    count: int,
    titles: Seq<Seq<char>>,
    ms: int,
    c: MbRelease,
    bits: Seq<u64>,
)
    ensures
        ({
            let fs = score_factors(artist, album, year, count, titles, ms, c, bits);
            &&& factor_for(fs, Part::Api) == Some(
                FactorView {
                    part: Part::Api,
                    weight: 10,
                    value: Quantity::Ratio(c.api_score as int, 100),
                },
            )
            &&& factor_for(fs, Part::TrackCount) == Some(
                FactorView {
                    part: Part::TrackCount,
                    weight: 25,
                    value: count_value(count, c.track_count as int),
                },
            )
            &&& measures(
                factor_for(fs, Part::Artist),
                15,
                artist_value(artist, c.artist@),
            )
            &&& measures(factor_for(fs, Part::Album), 15, album_value(album, c.title@))
            &&& measures(factor_for(fs, Part::Year), 15, year_value(year, c.year))
            &&& measures(
                factor_for(fs, Part::Duration),
                5,
                duration_value(ms, count, c.track_count as int, c.tracks@),
            )
            &&& measures(factor_for(fs, Part::Tracks), 20, titles_value(titles, c.tracks@, bits))
            &&& measures(factor_for(fs, Part::Country), 6, country_value(c.country))
            &&& measures(
                factor_for(fs, Part::Original),
                8,
                original_value(c.year, c.group_min_year),
            )
        }),
{
    let f1 = factor_if(Part::Api, 10, Some(Quantity::Ratio(c.api_score as int, 100)));
    let f2 = factor_if(Part::TrackCount, 25, Some(count_value(count, c.track_count as int)));
    let f3 = factor_if(Part::Artist, 15, artist_value(artist, c.artist@));
    let f4 = factor_if(Part::Album, 15, album_value(album, c.title@));
    let f5 = factor_if(Part::Year, 15, year_value(year, c.year));
    let d = duration_value(ms, count, c.track_count as int, c.tracks@);
    let f6 = factor_if(Part::Duration, 5, d);
    let f7 = factor_if(Part::Tracks, 20, titles_value(titles, c.tracks@, bits));
    let f8 = factor_if(Part::Country, 6, country_value(c.country));
    let f9 = factor_if(Part::Original, 8, original_value(c.year, c.group_min_year));
    let fs = score_factors(artist, album, year, count, titles, ms, c, bits);
    assert(fs == f1 + f2 + f3 + f4 + f5 + f6 + f7 + f8 + f9);
    lemma_find_factor(f1, f2, f3, f4, f5, f6, f7, f8, f9, Part::Api);
    lemma_find_factor(f1, f2, f3, f4, f5, f6, f7, f8, f9, Part::TrackCount);
    lemma_find_factor(f1, f2, f3, f4, f5, f6, f7, f8, f9, Part::Artist);
    lemma_find_factor(f1, f2, f3, f4, f5, f6, f7, f8, f9, Part::Album);
    lemma_find_factor(f1, f2, f3, f4, f5, f6, f7, f8, f9, Part::Year);
    lemma_find_factor(f1, f2, f3, f4, f5, f6, f7, f8, f9, Part::Duration);
    lemma_find_factor(f1, f2, f3, f4, f5, f6, f7, f8, f9, Part::Tracks);
    lemma_find_factor(f1, f2, f3, f4, f5, f6, f7, f8, f9, Part::Country);
    lemma_find_factor(f1, f2, f3, f4, f5, f6, f7, f8, f9, Part::Original);
}

/// Whether a factor has this weight and value, or is not there where there is
/// no value.
pub open spec fn measures(f: Option<FactorView>, weight: int, value: Option<Quantity>) -> bool {
    match value {
        Some(v) => f is Some && f->0.weight == weight && f->0.value == v,
        None => f is None,
    }
}

/// Where the list of a part begins: its own factor, or what comes after.
spec fn first_or(f: Seq<FactorView>, part: Part, rest: Option<FactorView>) -> Option<FactorView> {
    if f.len() > 0 && f[0].part == part { Some(f[0]) } else { rest }
}

proof fn lemma_first_or(f: Seq<FactorView>, rest: Seq<FactorView>, part: Part)
    requires
        f.len() <= 1,
    ensures
        factor_for(f + rest, part) == first_or(f, part, factor_for(rest, part)),
{
    lemma_factor_past(f, rest, part);
}

proof fn lemma_regroup(a: Seq<FactorView>, b: Seq<FactorView>, c: Seq<FactorView>)
    ensures
        (a + b) + c == a + (b + c),
{
    assert((a + b) + c =~= a + (b + c));
}

proof fn lemma_find_factor(
    f1: Seq<FactorView>,
    f2: Seq<FactorView>,
    f3: Seq<FactorView>,
    f4: Seq<FactorView>,
    f5: Seq<FactorView>,
    f6: Seq<FactorView>,
    f7: Seq<FactorView>,
    f8: Seq<FactorView>,
    f9: Seq<FactorView>,
    part: Part,
)
    requires
        f1.len() <= 1,
        f2.len() <= 1,
        f3.len() <= 1,
        f4.len() <= 1,
        f5.len() <= 1,
        f6.len() <= 1,
        f7.len() <= 1,
        f8.len() <= 1,
        f9.len() <= 1,
    ensures
        factor_for(f1 + f2 + f3 + f4 + f5 + f6 + f7 + f8 + f9, part) == first_or(
            f1,
            part,
            first_or(
                f2,
                part,
                first_or(
                    f3,
                    part,
                    first_or(
                        f4,
                        part,
                        first_or(
                            f5,
                            part,
                            first_or(
                                f6,
                                part,
                                first_or(f7, part, first_or(f8, part, first_or(f9, part, None))),
                            ),
                        ),
                    ),
                ),
            ),
        ),
{
    let r9 = f9 + Seq::<FactorView>::empty();
    let r8 = f8 + r9;
    let r7 = f7 + r8;
    let r6 = f6 + r7;
    let r5 = f5 + r6;
    let r4 = f4 + r5;
    let r3 = f3 + r4;
    let r2 = f2 + r3;
    let l2 = f1 + f2;
    let l3 = l2 + f3;
    let l4 = l3 + f4;
    let l5 = l4 + f5;
    let l6 = l5 + f6;
    let l7 = l6 + f7;
    let l8 = l7 + f8;
    assert(l8 + f9 =~= l8 + r9);
    lemma_regroup(l7, f8, r9);
    lemma_regroup(l6, f7, r8);
    lemma_regroup(l5, f6, r7);
    lemma_regroup(l4, f5, r6);
    lemma_regroup(l3, f4, r5);
    lemma_regroup(l2, f3, r4);
    lemma_regroup(f1, f2, r3);
    lemma_first_or(f9, Seq::empty(), part);
    lemma_first_or(f8, r9, part);
    lemma_first_or(f7, r8, part);
    lemma_first_or(f6, r7, part);
    lemma_first_or(f5, r6, part);
    lemma_first_or(f4, r5, part);
    lemma_first_or(f3, r4, part);
    lemma_first_or(f2, r3, part);
    lemma_first_or(f1, r2, part);
}

/// Where both sides have titles, the title factor is the sum of the matched
/// similarities over the number of local titles. A local title that finds no
/// track leaves fewer similarities to add up, and so lowers it; it is whole
/// only where every local title has a whole match.
pub proof fn law_unmatched_titles_lower_the_score(
    artist: Seq<char>,
    album: Seq<char>,
    year: Option<i32>,
    count: int,
    titles: Seq<Seq<char>>,
    ms: int,
    c: MbRelease,
    bits: Seq<u64>,
    i: int,
)
    requires
        0 <= i < titles.len() <= usize::MAX,
        0 < c.tracks@.len() <= usize::MAX,
        best_matching(titles, titles_of(c.tracks@), bits),
    ensures
        ({
            let fs = score_factors(artist, album, year, count, titles, ms, c, bits);
            let f = factor_for(fs, Part::Tracks);
            &&& f is Some
            &&& f->0.value == Quantity::Mean(bits, titles.len() as int)
            &&& bits.len() <= titles.len()
            &&& (forall|j: int|
                0 <= j < c.tracks@.len() ==> #[trigger] similarity(titles[i], titles_of(c.tracks@)[j])
                    < 0x3fe6_6666_6666_6666) ==> bits.len() < titles.len() && !is_whole(f->0.value)
            &&& is_whole(f->0.value) ==> exists|j: int|
                0 <= j < c.tracks@.len() && #[trigger] similarity(
                    titles[i],
                    titles_of(c.tracks@)[j],
                ) == ONE
        }),
{
    law_scores_weigh_each_factor(artist, album, year, count, titles, ms, c, bits);
    let ts = titles_of(c.tracks@);
    let ps = law_titles_are_matched_best_first(titles, ts, bits);
    let locs = ps.map_values(|p: Pair| p.local as int);
    let n = titles.len() as int;
    assert forall|x: int, y: int| 0 <= x < y < locs.len() implies locs[x] != locs[y] by {
        assert(ps[x].local != ps[y].local);
    }
    assert forall|x: int| 0 <= x < locs.len() implies 0 <= #[trigger] locs[x] < n by {
        assert(ps[x].local < titles.len());
    }
    lemma_distinct_below(locs, n);
    if !locs.contains(i) {
        let more = locs.push(i);
        assert forall|x: int, y: int| 0 <= x < y < more.len() implies more[x] != more[y] by {
            if y < locs.len() {
                assert(locs[x] != locs[y]);
            } else {
                assert(locs.contains(locs[x]));
            }
        }
        lemma_distinct_below(more, n);
    } else {
        let k = locs.index_of(i);
        let p = ps[k];
        assert(p.local == i);
        assert(bits[k] == similarity(titles[i], ts[p.track as int]));
        assert(bits[k] >= 0x3fe6_6666_6666_6666);
    }
}

/// How far a ratio is below another.
pub open spec fn less_than(a: Quantity, b: Quantity) -> bool {
    a is Ratio && b is Ratio && a->Ratio_0 * b->Ratio_1 < b->Ratio_0 * a->Ratio_1
}

/// An equal track count is the best there is; the farther the count of the
/// release from the local one, above or below, the lower the factor; and half
/// is given where a count is not known.
pub proof fn law_closer_track_counts_score_higher(local: int, near: int, far: int)
    requires
        0 < local,
        0 < near,
        0 < far,
        (local <= near < far) || (far < near <= local),
    ensures
        less_than(count_value(local, far), count_value(local, near)),
        is_whole(count_value(local, local)),
        count_value(0, far) == Quantity::Ratio(1, 2),
        count_value(local, 0) == Quantity::Ratio(1, 2),
{
    if near < far {
        assert(local * near < local * far) by (nonlinear_arith)
            requires
                0 < local,
                near < far,
        ;
    } else {
        assert(far * far < near * near) by (nonlinear_arith)
            requires
                0 < far < near,
        ;
        assert(far * far < local * local) by (nonlinear_arith)
            requires
                0 < far < local,
        ;
        let l = local * local;
        assert((far * far) * l < (near * near) * l) by (nonlinear_arith)
            requires
                far * far < near * near,
                l > 0,
                l == local * local,
        ;
        assert(l > 0) by (nonlinear_arith)
            requires
                l == local * local,
                local > 0,
        ;
    }
    if far < near && near == local {
        assert((far * far) * 1 < 1 * (local * local));
    }
}

/// The same year is the best there is, whichever of two years is the later
/// does not matter, and years farther apart never score higher; from five
/// years on there is nothing left.
pub proof fn law_closer_years_score_higher(a: i32, b: i32, c: i32)
    ensures
        year_value(Some(a), Some(b)) is Some,
        is_whole(year_value(Some(a), Some(a))->0),
        year_value(Some(a), Some(b)) == year_value(Some(b), Some(a)),
        a <= b < c ==> !less_than(year_value(Some(a), Some(b))->0, year_value(Some(a), Some(c))->0),
        a < b ==> less_than(year_value(Some(a), Some(b))->0, year_value(Some(a), Some(a))->0),
        b - a >= 5 ==> year_value(Some(a), Some(b))->0->Ratio_0 == 0,
        0 < b - a < 5 ==> year_value(Some(a), Some(b))->0->Ratio_0 > 0,
        year_value(None, Some(b)) is None,
        year_value(Some(a), None) is None,
{
}

/// Durations count where the track counts agree and both are known. Equal ones
/// are the best there is; ten seconds a track apart there is nothing left; and
/// in between, each further millisecond takes the same.
pub proof fn law_closer_durations_score_higher(local_ms: int, count: int, tracks: Seq<MbTrack>)
    requires
        local_ms > 0,
        count > 0,
        total_duration(tracks) > 0,
    ensures
        ({
            let ms = total_duration(tracks) as int;
            let v = duration_value(local_ms, count, count, tracks);
            let apart = if ms <= local_ms { local_ms - ms } else { ms - local_ms };
            &&& v is Some
            &&& v->0 is Ratio
            &&& v->0->Ratio_1 == count * 10_000
            &&& ms == local_ms ==> is_whole(v->0)
            &&& apart <= count * 10_000 ==> v->0->Ratio_0 + apart == v->0->Ratio_1
            &&& apart >= count * 10_000 ==> v->0->Ratio_0 == 0
            &&& forall|other: int| other != count ==> #[trigger] duration_value(
                local_ms,
                count,
                other,
                tracks,
            ) is None
        }),
{
}

/// A worldwide release is preferred to a European one, that to a British or
/// American, that to a Japanese, that to one of another major market, that to
/// one of any other country, and all these to one of an unknown country.
pub proof fn law_countries_have_an_order(code: Seq<char>)
    requires
        code != "XW"@,
        code != "XE"@,
        code != "GB"@,
        code != "US"@,
        code != "JP"@,
        code != "DE"@,
        code != "FR"@,
        code != "NL"@,
        code != "SE"@,
        code != "IT"@,
        code != "ES"@,
        code != "AU"@,
        code != "CA"@,
        code != "XU"@,
    ensures
        country_rank("XW"@) == 100,
        country_rank("XW"@) > country_rank("XE"@) > country_rank("GB"@),
        country_rank("GB"@) == country_rank("US"@),
        country_rank("US"@) > country_rank("JP"@) > country_rank("DE"@),
        country_rank("DE"@) == country_rank("FR"@) == country_rank("NL"@),
        country_rank("NL"@) == country_rank("SE"@) == country_rank("IT"@),
        country_rank("IT"@) == country_rank("ES"@) == country_rank("AU"@),
        country_rank("AU"@) == country_rank("CA"@),
        country_rank("CA"@) > country_rank(code) > country_rank("XU"@),
        country_rank("XU"@) > 0,
{
    reveal_strlit("XW");
    reveal_strlit("XE");
    reveal_strlit("GB");
    reveal_strlit("US");
    reveal_strlit("JP");
    reveal_strlit("DE");
    reveal_strlit("FR");
    reveal_strlit("NL");
    reveal_strlit("SE");
    reveal_strlit("IT");
    reveal_strlit("ES");
    reveal_strlit("AU");
    reveal_strlit("CA");
    reveal_strlit("XU");
    assert("XW"@[1] == 'W' && "XE"@[1] == 'E' && "XU"@[1] == 'U');
    assert("XW"@[0] == 'X' && "XE"@[0] == 'X' && "XU"@[0] == 'X');
    assert("GB"@[0] == 'G' && "US"@[0] == 'U' && "JP"@[0] == 'J');
    assert("DE"@[0] == 'D' && "FR"@[0] == 'F' && "NL"@[0] == 'N' && "SE"@[0] == 'S');
    assert("IT"@[0] == 'I' && "ES"@[0] == 'E' && "AU"@[0] == 'A' && "CA"@[0] == 'C');
}

/// The first pressing of an album is preferred, and each later one less, or
/// no more; but none counts for nothing.
pub proof fn law_earlier_pressings_score_higher(first: i32, a: i32, b: i32)
    requires
        first <= a < b,
    ensures
        is_whole(original_value(Some(first), Some(first))->0),
        !less_than(
            original_value(Some(a), Some(first))->0,
            original_value(Some(b), Some(first))->0,
        ),
        a - first <= 3 ==> less_than(
            original_value(Some(b), Some(first))->0,
            original_value(Some(a), Some(first))->0,
        ),
        original_value(Some(b), Some(first))->0->Ratio_0 > 0,
        original_value(None, Some(first)) is None,
        original_value(Some(a), None) is None,
{
}

/// A pseudo-release and a bootleg are scored lower than a release proper, the
/// pseudo-release the lower of the two.
pub proof fn law_only_releases_proper_keep_their_score(status: Option<String>)
    ensures
        status is None ==> score_keeps(status).len() == 0,
        forall|k: int|
            0 <= k < score_keeps(status).len() ==> 0 < #[trigger] score_keeps(status)[k] < 100,
        status is Some && status->0@ == "Bootleg"@ ==> score_keeps(status) == seq![92u32],
        status is Some && status->0@ == "Pseudo-Release"@ ==> score_keeps(status) == seq![85u32],
        status is Some && status->0@ == "Official"@ ==> score_keeps(status).len() == 0,
{
    reveal_strlit("Bootleg");
    reveal_strlit("Pseudo-Release");
    reveal_strlit("Official");
    let (b, p, o) = ("Bootleg"@, "Pseudo-Release"@, "Official"@);
    let (lb, lp, lo) = (
        crate::text::ascii_lowered(b),
        crate::text::ascii_lowered(p),
        crate::text::ascii_lowered(o),
    );
    assert(lb.len() == 7 && lp.len() == 14 && lo.len() == 8);
}

/// Whether two texts share a script does not depend on which is named first,
/// and a text always shares one with itself.
pub proof fn law_sharing_a_script_is_mutual(a: Seq<char>, b: Seq<char>)
    ensures
        no_common_script(a, b) == no_common_script(b, a),
        !no_common_script(a, a),
{
    if uses_any_script(a) {
        let i = choose|i: int| 0 <= i < a.len() && (script_of(#[trigger] a[i]) is Some);
        assert(uses_script(a, script_of(a[i])->0));
    }
}

/// Plain ASCII text needs no Latin rendering, and a text with a character of
/// another script does.
pub proof fn law_only_other_scripts_need_a_latin_name(s: Seq<char>, i: int)
    ensures
        (forall|k: int| 0 <= k < s.len() ==> (#[trigger] s[k] as u32) < 0x80) ==> pure_latin(s),
        0 <= i < s.len() && (0x3040 <= s[i] as u32 <= 0x30ff || 0x4e00 <= s[i] as u32 <= 0x9fff
            || 0xac00 <= s[i] as u32 <= 0xd7af || 0x0400 <= s[i] as u32 <= 0x04ff || 0x0370
            <= s[i] as u32 <= 0x03ff || 0x0590 <= s[i] as u32 <= 0x05ff || 0x0600 <= s[i] as u32
            <= 0x06ff || 0x0e00 <= s[i] as u32 <= 0x0e7f) ==> !pure_latin(s),
{
    if 0 <= i < s.len() {
        let k = script_of(s[i]);
        if k is Some {
            assert(uses_script(s, k->0) || !uses_script(s, k->0));
        }
    }
}


// ---------------------------------------------------------------------------
// Laws of names and titles

/// Names are compared letter by letter without regard to case; an empty one
/// is like no other but an empty one.
pub proof fn law_case_does_not_matter_for_likeness(
    a: Seq<char>,
    b: Seq<char>,
    c: Seq<char>,
    d: Seq<char>,
)
    ensures
        a.len() > 0 && b.len() > 0 && c.len() > 0 && d.len() > 0 && each_lowered(a) == each_lowered(
            c,
        ) && each_lowered(b) == each_lowered(d) ==> similarity(a, b) == similarity(c, d),
        a.len() == 0 && b.len() > 0 ==> similarity(a, b) == 0 && similarity(b, a) == 0,
        a.len() == 0 && b.len() == 0 ==> similarity(a, b) == 0x3ff0_0000_0000_0000u64,
        each_lowered(a + b) == each_lowered(a) + each_lowered(b),
{
    lemma_each_lowered_add(a, b);
}

proof fn lemma_each_lowered_add(a: Seq<char>, b: Seq<char>)
    ensures
        each_lowered(a + b) == each_lowered(a) + each_lowered(b),
    decreases b.len(),
{
    if b.len() == 0 {
        assert(a + b =~= a);
        assert(each_lowered(a) + each_lowered(b) =~= each_lowered(a));
    } else {
        let d = b.drop_last();
        lemma_each_lowered_add(a, d);
        assert((a + b).drop_last() =~= a + d);
        assert((a + b).last() == b.last());
        assert(each_lowered(a) + each_lowered(d) + char_lowercased(b.last()) =~= each_lowered(a) + (
        each_lowered(d) + char_lowercased(b.last())));
    }
}

proof fn lemma_letters_add(a: Seq<char>, b: Seq<char>)
    ensures
        letters(a + b) == letters(a) + letters(b),
    decreases b.len(),
{
    if b.len() == 0 {
        assert(a + b =~= a);
        assert(letters(a) + letters(b) =~= letters(a));
    } else {
        let d = b.drop_last();
        lemma_letters_add(a, d);
        assert((a + b).drop_last() =~= a + d);
        assert((a + b).last() == b.last());
        let c = ascii_lower(b.last());
        assert((letters(a) + letters(d)).push(c) =~= letters(a) + letters(d).push(c));
    }
}

/// The letters of a name are taken one by one, in lower case; nothing else of
/// it counts when it is asked whether it stands for various artists.
pub proof fn law_only_letters_tell_various_artists(a: Seq<char>, b: Seq<char>, c: char)
    ensures
        letters(a + b) == letters(a) + letters(b),
        is_ascii_letter(c) ==> letters(seq![c]) == seq![ascii_lower(c)],
        !is_ascii_letter(c) ==> letters(seq![c]).len() == 0,
        letters(a) == "various"@ || letters(a) == "va"@ || letters(a) == "variousartists"@
            ==> various_artists(a),
        has_text(a, "オムニバス"@) ==> various_artists(a),
{
    lemma_letters_add(a, b);
    let one = seq![c];
    let none = Seq::<char>::empty();
    assert(one.drop_last() =~= none);
    assert(one.last() == c);
    assert(letters(one.drop_last()) =~= none);
    assert(none.push(ascii_lower(c)) =~= seq![ascii_lower(c)]);
}

/// Artists are compared without the space around the local name. Where there
/// is none, where it stands for various artists, and where the two names
/// share no script, they are not compared.
pub proof fn law_artists_are_compared_where_they_can_be(
    a: Seq<char>,
    s: Seq<char>,
    b: Seq<char>,
    candidate: Seq<char>,
)
    requires
        forall|i: int| 0 <= i < a.len() ==> is_space(#[trigger] a[i]),
        forall|i: int| 0 <= i < b.len() ==> is_space(#[trigger] b[i]),
        s.len() > 0 ==> !is_space(s[0]) && !is_space(s.last()),
    ensures
        s.len() == 0 ==> artist_value(a + s + b, candidate) is None,
        various_artists(s) ==> artist_value(a + s + b, candidate) is None,
        no_common_script(s, candidate) ==> artist_value(a + s + b, candidate) is None,
        s.len() > 0 && !various_artists(s) && !no_common_script(s, candidate) ==> artist_value(
            a + s + b,
            candidate,
        ) == Some(Quantity::Similarity(similarity(s, candidate))),
{
    crate::text::law_trimming_takes_the_space_around(a, s, b);
}

/// Spaces count once, and not at the ends.
pub proof fn law_spaces_count_once(s: Seq<char>, c: char, space: char)
    requires
        !is_space(c),
        is_space(space),
    ensures
        spaced(s.push(space)) == spaced(s),
        spaced(s).len() > 0 ==> spaced(s.push(space).push(c)) == spaced(s) + seq![' ', c],
        spaced(s).len() == 0 ==> spaced(s.push(space).push(c)) == seq![c],
        s.len() == 0 || !is_space(s.last()) ==> spaced(s.push(c)) == spaced(s) + seq![c],
{
    let p = s.push(space);
    let q = p.push(c);
    assert(p.drop_last() =~= s);
    assert(q.drop_last() =~= p);
    assert(q[q.len() - 2] == space);
    assert(p.last() == space && q.last() == c);
    assert(spaced(p) == spaced(s));
    assert(spaced(q) == if spaced(p).len() > 0 {
        spaced(p).push(' ').push(c)
    } else {
        spaced(p).push(c)
    });
    assert(spaced(s).push(' ').push(c) =~= spaced(s) + seq![' ', c]);
    if spaced(s).len() == 0 {
        assert(spaced(s).push(c) =~= seq![c]);
    }
    let r = s.push(c);
    assert(r.drop_last() =~= s);
    if s.len() > 0 {
        assert(r[r.len() - 2] == s.last());
    }
    assert(spaced(s).push(c) =~= spaced(s) + seq![c]);
}

/// Titles are compared without brackets: each counts as a space.
pub proof fn law_brackets_count_as_spaces(a: Seq<char>, c: char, b: Seq<char>)
    ensures
        c == '(' || c == ')' || c == '[' || c == ']' ==> plain_title(a + seq![c] + b) == plain_title(
            a + seq![' '] + b,
        ),
{
    if c == '(' || c == ')' || c == '[' || c == ']' {
        assert(bracket_free(a + seq![c] + b) =~= bracket_free(a + seq![' '] + b));
    }
}

/// The length of a release is that of its tracks together.
pub proof fn law_lengths_of_tracks_add_up(a: Seq<MbTrack>, b: Seq<MbTrack>, t: MbTrack)
    ensures
        total_duration(a + b) == total_duration(a) + total_duration(b),
        t.duration_ms is Some ==> total_duration(seq![t]) == t.duration_ms->0,
        t.duration_ms is None ==> total_duration(seq![t]) == 0,
    decreases b.len(),
{
    let one = seq![t];
    assert(one.drop_last() =~= Seq::<MbTrack>::empty());
    assert(total_duration(one.drop_last()) == 0);
    assert(one.last() == t);
    if b.len() == 0 {
        assert(a + b =~= a);
    } else {
        law_lengths_of_tracks_add_up(a, b.drop_last(), t);
        assert((a + b).drop_last() =~= a + b.drop_last());
        assert((a + b).last() == b.last());
    }
}

/// Letters tell their script: Latin, kana, Han, Hangul, Cyrillic and Greek
/// are told apart; digits, spaces and marks have none.
pub proof fn law_letters_tell_their_script(c: char)
    ensures
        'a' <= c <= 'z' || 'A' <= c <= 'Z' || c == 'é' || c == 'ü' || c == 'ñ' ==> script_of(c)
            == script_of('a'),
        'ぁ' <= c <= 'ヺ' ==> script_of(c) == script_of('あ'),
        '一' <= c <= '龥' ==> script_of(c) == script_of('一'),
        '가' <= c <= '힣' ==> script_of(c) == script_of('가'),
        'А' <= c <= 'я' ==> script_of(c) == script_of('я'),
        'Α' <= c <= 'ω' ==> script_of(c) == script_of('α'),
        '0' <= c <= '9' || c == ' ' || c == '-' || c == '!' ==> script_of(c) is None,
        script_of('a') is Some && script_of('あ') is Some && script_of('一') is Some
            && script_of('가') is Some && script_of('я') is Some && script_of('α') is Some,
        script_of('a') != script_of('あ') && script_of('a') != script_of('一') && script_of('a')
            != script_of('가') && script_of('a') != script_of('я') && script_of('a') != script_of(
            'α',
        ),
        script_of('あ') != script_of('一') && script_of('あ') != script_of('가')
            && script_of('一') != script_of('가') && script_of('я') != script_of('α'),
{
}


/// A dash between spaces, short or long, and a colon with a space behind it
/// count as a space between the parts of a title.
pub proof fn law_separators_count_as_spaces(a: Seq<char>, b: Seq<char>)
    requires
        !a.contains('-') && !a.contains('—') && !a.contains(':'),
        !b.contains('-') && !b.contains('—') && !b.contains(':'),
    ensures
        plain_title(a + seq![' ', '-', ' '] + b) == plain_title(a + seq![' '] + b),
        plain_title(a + seq![' ', '—', ' '] + b) == plain_title(a + seq![' '] + b),
        plain_title(a + seq![':', ' '] + b) == plain_title(a + seq![' '] + b),
{
    let dash = " - "@;
    let long = " — "@;
    let colon = ": "@;
    let one = " "@;
    assert(dash =~= seq![' ', '-', ' ']) by {
        reveal_strlit(" - ");
    }
    assert(long =~= seq![' ', '—', ' ']) by {
        reveal_strlit(" — ");
    }
    assert(colon =~= seq![':', ' ']) by {
        reveal_strlit(": ");
    }
    assert(one =~= seq![' ']) by {
        reveal_strlit(" ");
    }
    let x = bracket_free(a);
    let y = bracket_free(b);
    lemma_no_separators(a);
    lemma_no_separators(b);
    let plain = x + one + y;
    assert(bracket_free(a + seq![' '] + b) =~= plain);
    assert(bracket_free(a + seq![' ', '-', ' '] + b) =~= x + dash + y);
    assert(bracket_free(a + seq![' ', '—', ' '] + b) =~= x + long + y);
    assert(bracket_free(a + seq![':', ' '] + b) =~= x + colon + y);
    let none = Seq::<char>::empty();
    assert(plain + dash + none =~= plain + dash);
    lemma_lacks(x, one, y);
    lemma_lacks(x, long, y);
    lemma_lacks(x, colon, y);
    crate::text::law_a_marked_occurrence_is_replaced(plain, dash, none, one, 1);
    crate::text::law_a_marked_occurrence_is_replaced(plain, long, none, one, 1);
    crate::text::law_a_marked_occurrence_is_replaced(plain, colon, none, one, 0);
    crate::text::law_a_marked_occurrence_is_replaced(x, dash, y, one, 1);
    crate::text::law_a_marked_occurrence_is_replaced(x + long + y, dash, none, one, 1);
    crate::text::law_a_marked_occurrence_is_replaced(x, long, y, one, 1);
    crate::text::law_a_marked_occurrence_is_replaced(x + colon + y, dash, none, one, 1);
    crate::text::law_a_marked_occurrence_is_replaced(x + colon + y, long, none, one, 1);
    crate::text::law_a_marked_occurrence_is_replaced(x, colon, y, one, 0);
}

proof fn lemma_no_separators(a: Seq<char>)
    requires
        !a.contains('-') && !a.contains('—') && !a.contains(':'),
    ensures
        ({
            let x = bracket_free(a);
            !x.contains('-') && !x.contains('—') && !x.contains(':')
        }),
{
    let x = bracket_free(a);
    assert forall|k: int| 0 <= k < x.len() implies x[k] != '-' && x[k] != '—' && x[k] != ':' by {
        assert(a.contains(a[k]));
    }
}

proof fn lemma_lacks(x: Seq<char>, mid: Seq<char>, y: Seq<char>)
    ensures
        forall|c: char|
            !x.contains(c) && !mid.contains(c) && !y.contains(c) ==> !#[trigger] (x + mid
                + y).contains(c),
{
    let s = x + mid + y;
    assert forall|c: char| !x.contains(c) && !mid.contains(c) && !y.contains(c) implies !#[trigger] (x
        + mid + y).contains(c) by {
        if s.contains(c) {
            let k = s.index_of(c);
            if k < x.len() {
                assert(x[k] == c);
            } else if k < x.len() + mid.len() {
                assert(mid[k - x.len()] == c);
            } else {
                assert(y[k - x.len() - mid.len()] == c);
            }
        }
    }
}

} // verus!
