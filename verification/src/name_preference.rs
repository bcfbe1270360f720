//! Which rendering of a name is taken in.
//!
//! The music database knows the canonical name of an artist or a release,
//! often in its native script, and aliases in other scripts. The choice is
//! made here; fetching the aliases is not.
use vstd::prelude::*;

use crate::matching::{is_pure_latin, pure_latin};
use crate::rows::copy_text;
use crate::settings::NameScriptPreference;
use crate::text::{begins, begins_with, opt_chars, same};

verus! {

/// An alternate name.
#[derive(Debug)]
pub struct MbAlias {
    pub name: String,
    /// The language of the name, such as `en` or `ja`.
    pub locale: Option<String>,
    /// The kind of the name, such as "Artist name".
    pub type_: Option<String>,
    /// Whether this is the main alias of its locale and kind.
    pub primary: bool,
}

impl Default for MbAlias {
    fn default() -> (r: Self)
        ensures
            r.name@ == ""@,
            r.locale is None,
            r.type_ is None,
            !r.primary,
    {
        MbAlias { name: "".to_owned(), locale: None, type_: None, primary: false }
    }
}

impl Clone for MbAlias {
    fn clone(&self) -> (r: Self)
        ensures
            r == *self,
    {
        MbAlias {
            name: self.name.clone(),
            locale: copy_text(&self.locale),
            type_: copy_text(&self.type_),
            primary: self.primary,
        }
    }
}

/// What a name is the name of.
#[derive(Debug, Clone, Copy, PartialEq, Eq, Structural)]
pub enum AliasKind {
    Artist,
    Release,
}

impl AliasKind {
    /// How the database labels aliases of this kind.
    pub open spec fn label(self) -> Seq<char> {
        match self {
            AliasKind::Artist => "Artist name"@,
            AliasKind::Release => "Release name"@,
        }
    }

    /// How the database labels aliases of this kind.
    pub fn type_label(self) -> (r: &'static str)
        ensures
            r@ == self.label(),
    {
        match self {
            AliasKind::Artist => "Artist name",
            AliasKind::Release => "Release name",
        }
    }
}

/// Whether an alias can serve: it is of the kind asked for, or of no stated
/// kind, and it is in Latin script.
pub open spec fn serves(a: MbAlias, kind: AliasKind) -> bool {
    &&& a.type_ is None || a.type_->0@ == kind.label()
    &&& pure_latin(a.name@)
}

/// Whether an alias is English.
pub open spec fn is_english(a: MbAlias) -> bool {
    a.locale is Some && begins(a.locale->0@, "en"@)
}

/// Whether an alias serves at a tier: a main English alias at the first, any
/// English alias at the second, any alias at the third.
pub open spec fn serves_at(a: MbAlias, kind: AliasKind, tier: int) -> bool {
    &&& serves(a, kind)
    &&& tier <= 2 ==> is_english(a)
    &&& tier <= 1 ==> a.primary
}

/// The name of the first alias that serves at a tier.
pub open spec fn first_serving(aliases: Seq<MbAlias>, kind: AliasKind, tier: int) -> Option<
    Seq<char>,
>
    decreases aliases.len(),
{
    if aliases.len() == 0 {
        None
    } else if serves_at(aliases[0], kind, tier) {
        Some(aliases[0].name@)
    } else {
        first_serving(aliases.skip(1), kind, tier)
    }
}

/// The preferred name.
pub open spec fn preferred(
    canonical: Seq<char>,
    sort_name: Option<Seq<char>>,
    aliases: Seq<MbAlias>,
    pref: NameScriptPreference,
    kind: AliasKind,
) -> Seq<char> {
    if pref == NameScriptPreference::Native || pure_latin(canonical) {
        canonical
    } else if first_serving(aliases, kind, 1) is Some {
        first_serving(aliases, kind, 1)->0
    } else if first_serving(aliases, kind, 2) is Some {
        first_serving(aliases, kind, 2)->0
    } else if first_serving(aliases, kind, 3) is Some {
        first_serving(aliases, kind, 3)->0
    } else if sort_name is Some && pure_latin(sort_name->0) {
        sort_name->0
    } else {
        canonical
    }
}

/// Whether an alias serves at a tier.
fn fits(a: &MbAlias, kind: AliasKind, tier: u8) -> (r: bool)
    ensures
        r == serves_at(*a, kind, tier as int),
{
    let typed = match &a.type_ {
        Some(t) => same(t.as_str(), kind.type_label()),
        None => true,
    };
    let english = match &a.locale {
        Some(l) => begins_with(l.as_str(), "en"),
        None => false,
    };
    typed && (tier > 2 || english) && (tier > 1 || a.primary) && is_pure_latin(a.name.as_str())
}

/// The name of the first alias that serves at a tier.
fn find_alias(aliases: &[MbAlias], kind: AliasKind, tier: u8) -> (r: Option<String>)
    ensures
        crate::text::opt_view(r) == first_serving(aliases@, kind, tier as int),
{
    let n: usize = aliases.len();
    let mut i: usize = 0;
    assert(aliases@.skip(0) =~= aliases@);
    while i < n
        invariant
            i <= n,
            n == aliases@.len(),
            first_serving(aliases@, kind, tier as int) == first_serving(
                aliases@.skip(i as int),
                kind,
                tier as int,
            ),
        decreases n - i,
    {
        assert(aliases@.skip(i as int)[0] == aliases@[i as int]);
        assert(aliases@.skip(i as int).skip(1) =~= aliases@.skip(i + 1));
        if fits(&aliases[i], kind, tier) {
            return Some(aliases[i].name.clone());
        }
        i += 1;
    }
    None
}

/// Chooses the preferred rendering of a name.
///
/// Native script always takes the canonical name. Latin script takes the
/// canonical name where it is Latin already; else the first Latin alias of
/// the right kind, main English ones first, then English ones, then any;
/// else the sort name where that is Latin; else the canonical name after all.
pub fn pick_preferred_name(
    canonical: &str,
    sort_name: Option<&str>,
    aliases: &[MbAlias],
    pref: NameScriptPreference,
    kind: AliasKind,
) -> (r: String)
    ensures
        r@ == preferred(canonical@, opt_chars(sort_name), aliases@, pref, kind),
{
    if pref == NameScriptPreference::Native || is_pure_latin(canonical) {
        return canonical.to_owned();
    }
    if let Some(name) = find_alias(aliases, kind, 1) {
        return name;
    }
    if let Some(name) = find_alias(aliases, kind, 2) {
        return name;
    }
    if let Some(name) = find_alias(aliases, kind, 3) {
        return name;
    }
    if let Some(sort) = sort_name {
        if is_pure_latin(sort) {
            return sort.to_owned();
        }
    }
    canonical.to_owned()
}

proof fn lemma_first_serving(aliases: Seq<MbAlias>, kind: AliasKind, tier: int)
    ensures
        match first_serving(aliases, kind, tier) {
            Some(name) => exists|i: int|
                0 <= i < aliases.len() && serves_at(#[trigger] aliases[i], kind, tier)
                    && aliases[i].name@ == name,
            None => forall|i: int|
                0 <= i < aliases.len() ==> !serves_at(#[trigger] aliases[i], kind, tier),
        },
    decreases aliases.len(),
{
    if aliases.len() > 0 && !serves_at(aliases[0], kind, tier) {
        let rest = aliases.skip(1);
        lemma_first_serving(rest, kind, tier);
        match first_serving(rest, kind, tier) {
            Some(name) => {
                let i = choose|i: int|
                    0 <= i < rest.len() && serves_at(#[trigger] rest[i], kind, tier)
                        && rest[i].name@ == name;
                assert(aliases[i + 1] == rest[i]);
            },
            None => {
                assert forall|i: int| 0 <= i < aliases.len() implies !serves_at(
                    #[trigger] aliases[i],
                    kind,
                    tier,
                ) by {
                    if i > 0 {
                        assert(rest[i - 1] == aliases[i]);
                    }
                }
            },
        }
    }
}

/// A chosen name is one of those given: the canonical name, the sort name,
/// or an alias that serves.
pub proof fn law_names_are_not_made_up(
    canonical: Seq<char>,
    sort_name: Option<Seq<char>>,
    aliases: Seq<MbAlias>,
    pref: NameScriptPreference,
    kind: AliasKind,
)
    ensures
        ({
            let r = preferred(canonical, sort_name, aliases, pref, kind);
            r == canonical || (sort_name is Some && r == sort_name->0) || exists|i: int|
                0 <= i < aliases.len() && serves(#[trigger] aliases[i], kind) && aliases[i].name@
                    == r
        }),
{
    lemma_first_serving(aliases, kind, 1);
    lemma_first_serving(aliases, kind, 2);
    lemma_first_serving(aliases, kind, 3);
}

/// With Latin script preferred, a name in another script is chosen only
/// where no Latin name was given.
pub proof fn law_latin_is_chosen_where_known(
    canonical: Seq<char>,
    sort_name: Option<Seq<char>>,
    aliases: Seq<MbAlias>,
    kind: AliasKind,
)
    requires
        pure_latin(canonical) || (sort_name is Some && pure_latin(sort_name->0)) || exists|i: int|
            0 <= i < aliases.len() && serves(#[trigger] aliases[i], kind),
    ensures
        pure_latin(preferred(canonical, sort_name, aliases, NameScriptPreference::Latin, kind)),
{
    lemma_first_serving(aliases, kind, 1);
    lemma_first_serving(aliases, kind, 2);
    lemma_first_serving(aliases, kind, 3);
    if exists|i: int| 0 <= i < aliases.len() && serves(#[trigger] aliases[i], kind) {
        let i = choose|i: int| 0 <= i < aliases.len() && serves(#[trigger] aliases[i], kind);
        assert(serves_at(aliases[i], kind, 3));
    }
}


/// Whether an alias is Latin and of the kind asked for, or of no stated kind.
pub open spec fn can_stand_in(a: MbAlias, kind: AliasKind) -> bool {
    &&& pure_latin(a.name@)
    &&& a.type_ is Some ==> a.type_->0@ == (if kind is Artist {
        "Artist name"@
    } else {
        "Release name"@
    })
}

/// Whether the locale of an alias is English.
pub open spec fn in_english(a: MbAlias) -> bool {
    a.locale is Some && a.locale->0@.len() >= 2 && a.locale->0@[0] == 'e' && a.locale->0@[1] == 'n'
}

proof fn lemma_english(a: MbAlias)
    ensures
        is_english(a) == in_english(a),
{
    reveal_strlit("en");
    if a.locale is Some {
        let l = a.locale->0@;
        if l.len() >= 2 {
            assert(l.take(2)[0] == l[0] && l.take(2)[1] == l[1]);
            if l[0] == 'e' && l[1] == 'n' {
                assert(l.take(2) =~= "en"@);
            }
        }
    }
}

proof fn lemma_first_serving_at(aliases: Seq<MbAlias>, kind: AliasKind, tier: int, k: int)
    requires
        0 <= k < aliases.len(),
        serves_at(aliases[k], kind, tier),
        forall|j: int| 0 <= j < k ==> !serves_at(#[trigger] aliases[j], kind, tier),
    ensures
        first_serving(aliases, kind, tier) == Some(aliases[k].name@),
    decreases aliases.len(),
{
    if k > 0 {
        let rest = aliases.skip(1);
        assert(!serves_at(aliases[0], kind, tier));
        assert(rest[k - 1] == aliases[k]);
        assert forall|j: int| 0 <= j < k - 1 implies !serves_at(#[trigger] rest[j], kind, tier) by {
            assert(rest[j] == aliases[j + 1]);
        }
        lemma_first_serving_at(rest, kind, tier, k - 1);
    }
}

/// A name that is preferred in its native script, or that is Latin already,
/// stays as it is.
pub proof fn law_names_in_the_wanted_script_stay(
    canonical: Seq<char>,
    sort_name: Option<Seq<char>>,
    aliases: Seq<MbAlias>,
    pref: NameScriptPreference,
    kind: AliasKind,
)
    requires
        pref is Native || pure_latin(canonical),
    ensures
        preferred(canonical, sort_name, aliases, pref, kind) == canonical,
{
}

/// Of the Latin aliases of the right kind, the first main English one is
/// taken; without one, the first English one; without one, the first of all.
pub proof fn law_english_names_come_first(
    canonical: Seq<char>,
    sort_name: Option<Seq<char>>,
    aliases: Seq<MbAlias>,
    kind: AliasKind,
    k: int,
)
    requires
        !pure_latin(canonical),
        0 <= k < aliases.len(),
        can_stand_in(aliases[k], kind),
    ensures
        ({
            let r = preferred(canonical, sort_name, aliases, NameScriptPreference::Latin, kind);
            &&& in_english(aliases[k]) && aliases[k].primary && (forall|j: int|
                0 <= j < k ==> !(can_stand_in(#[trigger] aliases[j], kind) && in_english(aliases[j])
                    && aliases[j].primary)) ==> r == aliases[k].name@
            &&& in_english(aliases[k]) && (forall|j: int|
                0 <= j < aliases.len() ==> !(can_stand_in(#[trigger] aliases[j], kind)
                    && in_english(aliases[j]) && aliases[j].primary)) && (forall|j: int|
                0 <= j < k ==> !(can_stand_in(#[trigger] aliases[j], kind) && in_english(
                    aliases[j],
                ))) ==> r == aliases[k].name@
            &&& (forall|j: int|
                0 <= j < aliases.len() ==> !(can_stand_in(#[trigger] aliases[j], kind)
                    && in_english(aliases[j]))) && (forall|j: int|
                0 <= j < k ==> !can_stand_in(#[trigger] aliases[j], kind)) ==> r
                == aliases[k].name@
        }),
{
    assert forall|j: int| 0 <= j < aliases.len() implies (serves(#[trigger] aliases[j], kind)
        == can_stand_in(aliases[j], kind)) && is_english(aliases[j]) == in_english(aliases[j]) by {
        lemma_english(aliases[j]);
    }
    assert(serves(aliases[k], kind));
    lemma_first_serving(aliases, kind, 1);
    lemma_first_serving(aliases, kind, 2);
    lemma_first_serving(aliases, kind, 3);
    if in_english(aliases[k]) && aliases[k].primary && (forall|j: int|
        0 <= j < k ==> !(can_stand_in(#[trigger] aliases[j], kind) && in_english(aliases[j])
            && aliases[j].primary)) {
        lemma_first_serving_at(aliases, kind, 1, k);
    }
    if in_english(aliases[k]) && (forall|j: int|
        0 <= j < k ==> !(can_stand_in(#[trigger] aliases[j], kind) && in_english(aliases[j]))) {
        lemma_first_serving_at(aliases, kind, 2, k);
    }
    if forall|j: int| 0 <= j < k ==> !can_stand_in(#[trigger] aliases[j], kind) {
        lemma_first_serving_at(aliases, kind, 3, k);
    }
}

/// Without such an alias the sort name is taken where it is Latin, and else
/// the name itself.
pub proof fn law_without_aliases_the_sort_name_is_taken(
    canonical: Seq<char>,
    sort_name: Option<Seq<char>>,
    aliases: Seq<MbAlias>,
    kind: AliasKind,
)
    requires
        !pure_latin(canonical),
        forall|j: int| 0 <= j < aliases.len() ==> !can_stand_in(#[trigger] aliases[j], kind),
    ensures
        preferred(canonical, sort_name, aliases, NameScriptPreference::Latin, kind) == (
        if sort_name is Some && pure_latin(sort_name->0) {
            sort_name->0
        } else {
            canonical
        }),
{
    lemma_first_serving(aliases, kind, 1);
    lemma_first_serving(aliases, kind, 2);
    lemma_first_serving(aliases, kind, 3);
    assert forall|j: int| 0 <= j < aliases.len() implies !serves(#[trigger] aliases[j], kind) by {
        assert(!can_stand_in(aliases[j], kind));
    }
}

} // verus!
