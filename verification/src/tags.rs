//! The tag expander: maps a base language identifier to the full, ordered
//! list of locale tags it answers to — the canonical (or fallback) tag first,
//! then the region/script aliases from the static alias table.

use crate::text::str_eq;
use crate::text::views;
use vstd::prelude::*;
use vstd::string::*;

verus! {

/// The base identifiers that the static alias table knows.
pub open spec fn alias_table_keys() -> Seq<Seq<char>> {
    seq!["se"@, "sma"@, "smn"@, "sms"@, "smj"@]
}

/// Whether `base` has an entry in the static alias table.
pub open spec fn in_alias_table(base: Seq<char>) -> bool {
    alias_table_keys().contains(base)
}

/// The regions configured for every alias table entry.
pub open spec fn regions() -> Seq<Seq<char>> {
    seq!["NO"@, "SE"@, "FI"@]
}

/// `{base}-Latn-{region}`.
pub open spec fn latn_alias(base: Seq<char>, region: Seq<char>) -> Seq<char> {
    base + "-Latn-"@ + region
}

/// `{base}-{region}`.
pub open spec fn plain_alias(base: Seq<char>, region: Seq<char>) -> Seq<char> {
    base + "-"@ + region
}

/// The two aliases generated for one region, in generation order.
pub open spec fn region_aliases(base: Seq<char>, region: Seq<char>) -> Seq<Seq<char>> {
    seq![latn_alias(base, region), plain_alias(base, region)]
}

/// Every alias of `base`, in the table's fixed order.
pub open spec fn alias_tags(base: Seq<char>) -> Seq<Seq<char>> {
    region_aliases(base, "NO"@) + region_aliases(base, "SE"@) + region_aliases(base, "FI"@)
}

/// The first tag of an expansion: the resolver's canonical tag when it gave
/// one, the base identifier itself otherwise.
pub open spec fn canonical_tag(base: Seq<char>, resolved: Option<Seq<char>>) -> Seq<char> {
    match resolved {
        Some(t) => t,
        None => base,
    }
}

/// The complete expansion of `base`, given the resolver's answer for it.
pub open spec fn expand(base: Seq<char>, resolved: Option<Seq<char>>) -> Seq<Seq<char>> {
    seq![canonical_tag(base, resolved)] + if in_alias_table(base) {
        alias_tags(base)
    } else {
        Seq::empty()
    }
}

/// The character sequence held by an optional resolver answer.
pub open spec fn opt_view(o: Option<String>) -> Option<Seq<char>> {
    match o {
        Some(s) => Some(s@),
        None => None,
    }
}

/// Law: a base identifier outside the alias table with no resolver mapping
/// expands to exactly itself.
pub proof fn lemma_expand_unknown(base: Seq<char>)
    requires
        !in_alias_table(base),
    ensures
        expand(base, None) == seq![base],
{
    assert(expand(base, None) =~= seq![base]);
}

/// Law: a base identifier in the alias table expands to at least
/// `1 + 2 * regions().len()` tags, and every tag after the first is
/// `{base}-Latn-{region}` or `{base}-{region}` for a configured region.
pub proof fn lemma_expand_alias_base(base: Seq<char>, resolved: Option<Seq<char>>)
    requires
        in_alias_table(base),
    ensures
        expand(base, resolved).len() >= 1 + 2 * regions().len(),
        forall|i: int|
            1 <= i < expand(base, resolved).len() ==> exists|k: int|
                0 <= k < regions().len() && (#[trigger] expand(base, resolved)[i] == latn_alias(
                    base,
                    regions()[k],
                ) || expand(base, resolved)[i] == plain_alias(base, regions()[k])),
{
    let e = expand(base, resolved);
    assert(e.len() == 7);
    assert forall|i: int| 1 <= i < e.len() implies exists|k: int|
        0 <= k < regions().len() && (#[trigger] e[i] == latn_alias(base, regions()[k]) || e[i]
            == plain_alias(base, regions()[k])) by {
        if i <= 2 {
            assert(regions()[0] == "NO"@);
            assert(e[1] == latn_alias(base, "NO"@));
            assert(e[2] == plain_alias(base, "NO"@));
        } else if i <= 4 {
            assert(regions()[1] == "SE"@);
            assert(e[3] == latn_alias(base, "SE"@));
            assert(e[4] == plain_alias(base, "SE"@));
        } else {
            assert(regions()[2] == "FI"@);
            assert(e[5] == latn_alias(base, "FI"@));
            assert(e[6] == plain_alias(base, "FI"@));
        }
    }
}

/// Whether `base` has an entry in the static alias table.
fn base_in_alias_table(base: &str) -> (r: bool)
    ensures
        r == in_alias_table(base@),
{
    let r = str_eq(base, "se") || str_eq(base, "sma") || str_eq(base, "smn") || str_eq(
        base,
        "sms",
    ) || str_eq(base, "smj");
    proof {
        if r {
            assert(in_alias_table(base@));
        } else {
            assert forall|i: int| 0 <= i < alias_table_keys().len() implies alias_table_keys()[i]
                != base@ by {
            }
        }
    }
    r
}

/// Appends the two aliases of `base` for one region.
fn push_region_aliases(tags: &mut Vec<String>, base: &str, region: &str)
    ensures
        views(final(tags)@) == views(old(tags)@) + region_aliases(base@, region@),
{
    let mut latn = String::from_str(base);
    latn.append("-Latn-");
    latn.append(region);
    tags.push(latn);
    let mut plain = String::from_str(base);
    plain.append("-");
    plain.append(region);
    tags.push(plain);
    proof {
        assert(views(tags@) =~= views(old(tags)@) + region_aliases(base@, region@));
    }
}

/// The tag expander: the canonical-or-fallback tag for `neutral_tag`, then
/// every alias the static table holds for it.  `resolved` is the locale
/// resolver's answer for `neutral_tag`; the caller obtains it from the
/// external resolver, absence meaning no mapping is known.
pub fn resolve_local_name(neutral_tag: &str, resolved: Option<String>) -> (tags: Vec<String>)
    ensures
        views(tags@) == expand(neutral_tag@, opt_view(resolved)),
{
    let mut tags: Vec<String> = Vec::new();
    match resolved {
        Some(t) => tags.push(t),
        None => tags.push(String::from_str(neutral_tag)),
    }
    proof {
        assert(views(tags@) =~= seq![canonical_tag(neutral_tag@, opt_view(resolved))]);
    }
    if base_in_alias_table(neutral_tag) {
        push_region_aliases(&mut tags, neutral_tag, "NO");
        push_region_aliases(&mut tags, neutral_tag, "SE");
        push_region_aliases(&mut tags, neutral_tag, "FI");
    }
    proof {
        assert(views(tags@) =~= expand(neutral_tag@, opt_view(resolved)));
    }
    tags
}

} // verus!
