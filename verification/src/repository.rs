//! The archive repository: holds the root directories and answers, from a
//! walked file list and the resolver's answers, which bundles exist, which
//! locale tags they serve, and which file serves a requested tag.
//!
//! The repository never touches the filesystem itself.  The caller walks the
//! configured roots (a directory that cannot be read contributes nothing) and
//! hands in every file it saw, in traversal order, together with the locale
//! resolver's answer for each file's stem; every decision made on those
//! values is verified here.

use crate::paths::bundle_stem;
use crate::paths::is_bundle;
use crate::paths::is_bundle_path;
use crate::paths::stem;
use crate::tags::expand;
use crate::tags::opt_view;
use crate::tags::resolve_local_name;
use crate::text::lemma_contains_add;
use crate::text::lemma_lex_lt_connected;
use crate::text::lemma_lex_lt_irreflexive;
use crate::text::lemma_lex_lt_transitive;
use crate::text::lex_lt;
use crate::text::str_eq;
use crate::text::str_lt;
use crate::text::views;
use vstd::prelude::*;
use vstd::string::*;

verus! {

/// A file seen during the walk, together with the locale resolver's answer
/// for its stem (absence meaning no mapping, or no stem to resolve).
pub struct Candidate {
    /// The file's path, as text.
    pub path: String,
    /// The canonical locale tag the resolver gave for the file's stem.
    pub resolved: Option<String>,
}

/// Whether a candidate's path names a dictionary bundle.
pub open spec fn candidate_is_bundle(c: Candidate) -> bool {
    is_bundle_path(c.path@)
}

/// The tags a candidate answers to: the expansion of its stem.
pub open spec fn candidate_tags(c: Candidate) -> Seq<Seq<char>> {
    expand(stem(c.path@), opt_view(c.resolved))
}

/// The tags one candidate contributes: its expansion when it is a bundle,
/// nothing otherwise.
pub open spec fn contributed_tags(c: Candidate) -> Seq<Seq<char>> {
    if candidate_is_bundle(c) {
        candidate_tags(c)
    } else {
        Seq::empty()
    }
}

/// Every tag derivable from a candidate list, in list order, duplicates kept.
pub open spec fn all_tags(cs: Seq<Candidate>) -> Seq<Seq<char>>
    decreases cs.len(),
{
    if cs.len() == 0 {
        Seq::empty()
    } else {
        all_tags(cs.drop_last()) + contributed_tags(cs.last())
    }
}

/// Whether a candidate is a bundle answering to `tag`.
pub open spec fn candidate_matches(c: Candidate, tag: Seq<char>) -> bool {
    candidate_is_bundle(c) && candidate_tags(c).contains(tag)
}

/// The path of the first candidate answering to `tag`, in list order.
pub open spec fn first_match(cs: Seq<Candidate>, tag: Seq<char>) -> Option<Seq<char>>
    decreases cs.len(),
{
    if cs.len() == 0 {
        None
    } else {
        let prior = first_match(cs.drop_last(), tag);
        if prior is Some {
            prior
        } else if candidate_matches(cs.last(), tag) {
            Some(cs.last().path@)
        } else {
            None
        }
    }
}

/// The recognized bundle paths among `ps`, in order.
pub open spec fn bundle_paths(ps: Seq<Seq<char>>) -> Seq<Seq<char>> {
    ps.filter(|p: Seq<char>| is_bundle_path(p))
}

/// Strictly ascending in lexicographic order — sorted and duplicate-free.
pub open spec fn sorted_strict(s: Seq<Seq<char>>) -> bool {
    forall|i: int, j: int| 0 <= i < j < s.len() ==> lex_lt(s[i], s[j])
}

/// Locates dictionary bundles for locale tags under fixed root directories.
pub struct SpellerRepository {
    base_directories: Vec<String>,
}

impl SpellerRepository {
    /// The repository's root directories, as character sequences.
    pub closed spec fn roots(&self) -> Seq<Seq<char>> {
        views(self.base_directories@)
    }

    /// A repository over the given root directories, held in the given order
    /// and never changed afterwards.
    pub fn new(base_directories: Vec<String>) -> (r: Self)
        ensures
            r.roots() == views(base_directories@),
    {
        SpellerRepository { base_directories }
    }

    /// The root directories, for the caller that performs the walk.
    pub fn base_directories(&self) -> (r: &Vec<String>)
        ensures
            views(r@) == self.roots(),
    {
        &self.base_directories
    }

    /// Keeps exactly the recognized bundle files among the walked files, in
    /// their traversal order, duplicates kept.
    pub fn get_speller_archives(&self, files: &Vec<String>) -> (r: Vec<String>)
        ensures
            views(r@) == bundle_paths(views(files@)),
    {
        let mut r: Vec<String> = Vec::new();
        let mut i: usize = 0;
        proof {
            reveal(Seq::filter);
        }
        while i < files.len()
            invariant
                i <= files@.len(),
                views(r@) == bundle_paths(views(files@).take(i as int)),
            decreases files@.len() - i,
        {
            proof {
                reveal(Seq::filter);
                assert(views(files@).take(i + 1).drop_last() =~= views(files@).take(i as int));
                assert(views(files@).take(i + 1).last() == files@[i as int]@);
            }
            if is_bundle(files[i].as_str()) {
                r.push(files[i].clone());
            }
            i += 1;
        }
        proof {
            assert(views(files@).take(files@.len() as int) =~= views(files@));
        }
        r
    }

    /// The sorted, duplicate-free list of every locale tag some discovered
    /// bundle answers to, derived from the walked files and the resolver's
    /// answers.
    pub fn get_supported_languages(&self, candidates: &Vec<Candidate>) -> (r: Vec<String>)
        ensures
            sorted_strict(views(r@)),
            forall|t: Seq<char>|
                #[trigger] views(r@).contains(t) <==> all_tags(candidates@).contains(t),
    {
        let ghost cs = candidates@;
        let mut r: Vec<String> = Vec::new();
        let mut i: usize = 0;
        while i < candidates.len()
            invariant
                cs == candidates@,
                i <= cs.len(),
                sorted_strict(views(r@)),
                forall|t: Seq<char>|
                    #[trigger] views(r@).contains(t) <==> all_tags(cs.take(i as int)).contains(t),
            decreases cs.len() - i,
        {
            proof {
                assert(cs.take(i + 1).drop_last() =~= cs.take(i as int));
                assert(cs.take(i + 1).last() == cs[i as int]);
            }
            let c = &candidates[i];
            if is_bundle(c.path.as_str()) {
                let stem_opt = bundle_stem(c.path.as_str());
                let stem_str = stem_opt.unwrap();
                let resolved = match &c.resolved {
                    Some(s) => Some(s.clone()),
                    None => None,
                };
                proof {
                    assert(opt_view(resolved) == opt_view(cs[i as int].resolved));
                }
                let tags = resolve_local_name(stem_str.as_str(), resolved);
                let mut j: usize = 0;
                while j < tags.len()
                    invariant
                        cs == candidates@,
                        i < cs.len(),
                        j <= tags@.len(),
                        views(tags@) == candidate_tags(cs[i as int]),
                        candidate_is_bundle(cs[i as int]),
                        sorted_strict(views(r@)),
                        forall|t: Seq<char>|
                            #[trigger] views(r@).contains(t) <==> all_tags(
                                cs.take(i as int),
                            ).contains(t) || views(tags@).take(j as int).contains(t),
                    decreases tags@.len() - j,
                {
                    proof {
                        assert(views(tags@).take(j + 1) =~= views(tags@).take(j as int).push(
                            views(tags@)[j as int],
                        ));
                        lemma_contains_push(views(tags@).take(j as int), views(tags@)[j as int]);
                    }
                    sorted_insert(&mut r, tags[j].clone());
                    j += 1;
                }
                proof {
                    assert(views(tags@).take(tags@.len() as int) =~= views(tags@));
                    assert(all_tags(cs.take(i + 1)) == all_tags(cs.take(i as int))
                        + candidate_tags(cs[i as int]));
                    assert forall|t: Seq<char>| #[trigger]
                        views(r@).contains(t) <==> all_tags(cs.take(i + 1)).contains(t) by {
                        lemma_contains_add(
                            all_tags(cs.take(i as int)),
                            candidate_tags(cs[i as int]),
                            t,
                        );
                    }
                }
            } else {
                proof {
                    assert(all_tags(cs.take(i + 1)) =~= all_tags(cs.take(i as int)));
                }
            }
            i += 1;
        }
        proof {
            assert(cs.take(cs.len() as int) =~= cs);
        }
        r
    }

    /// The path of the first discovered bundle that answers to
    /// `language_tag`, or absence when no bundle does.
    pub fn get_speller_archive(&self, language_tag: &str, candidates: &Vec<Candidate>) -> (r:
        Option<String>)
        ensures
            opt_view(r) == first_match(candidates@, language_tag@),
    {
        let ghost cs = candidates@;
        let mut i: usize = 0;
        while i < candidates.len()
            invariant
                cs == candidates@,
                i <= cs.len(),
                first_match(cs.take(i as int), language_tag@) is None,
            decreases cs.len() - i,
        {
            proof {
                assert(cs.take(i + 1).drop_last() =~= cs.take(i as int));
                assert(cs.take(i + 1).last() == cs[i as int]);
            }
            let c = &candidates[i];
            if is_bundle(c.path.as_str()) {
                let stem_opt = bundle_stem(c.path.as_str());
                let stem_str = stem_opt.unwrap();
                let resolved = match &c.resolved {
                    Some(s) => Some(s.clone()),
                    None => None,
                };
                proof {
                    assert(opt_view(resolved) == opt_view(cs[i as int].resolved));
                }
                let tags = resolve_local_name(stem_str.as_str(), resolved);
                let mut j: usize = 0;
                while j < tags.len()
                    invariant
                        cs == candidates@,
                        i < cs.len(),
                        j <= tags@.len(),
                        *c == cs[i as int],
                        views(tags@) == candidate_tags(cs[i as int]),
                        candidate_is_bundle(cs[i as int]),
                        first_match(cs.take(i as int), language_tag@) is None,
                        forall|k: int| 0 <= k < j ==> views(tags@)[k] != language_tag@,
                    decreases tags@.len() - j,
                {
                    if str_eq(tags[j].as_str(), language_tag) {
                        proof {
                            assert(views(tags@)[j as int] == language_tag@);
                            assert(candidate_tags(cs[i as int]).contains(language_tag@));
                            assert(cs.take(i + 1).drop_last() =~= cs.take(i as int));
                            assert(cs.take(i + 1).last() == cs[i as int]);
                            assert(first_match(cs.take(i + 1), language_tag@) == Some(
                                cs[i as int].path@,
                            ));
                            lemma_first_match_prefix(cs, language_tag@, i + 1);
                        }
                        return Some(c.path.clone());
                    }
                    j += 1;
                }
                proof {
                    assert(views(tags@).take(tags@.len() as int) =~= views(tags@));
                    assert(!candidate_tags(cs[i as int]).contains(language_tag@));
                    assert(first_match(cs.take(i + 1), language_tag@) is None);
                }
            } else {
                proof {
                    assert(first_match(cs.take(i + 1), language_tag@) is None);
                }
            }
            i += 1;
        }
        proof {
            assert(cs.take(cs.len() as int) =~= cs);
        }
        None
    }
}

/// A match found in a prefix of the list is the match of the whole list.
proof fn lemma_first_match_prefix(cs: Seq<Candidate>, tag: Seq<char>, i: int)
    requires
        0 <= i <= cs.len(),
        first_match(cs.take(i), tag) is Some,
    ensures
        first_match(cs, tag) == first_match(cs.take(i), tag),
    decreases cs.len() - i,
{
    if i == cs.len() {
        assert(cs.take(i) =~= cs);
    } else {
        assert(cs.take(i + 1).drop_last() =~= cs.take(i));
        lemma_first_match_prefix(cs, tag, i + 1);
    }
}

/// Law: tag lookup succeeds exactly when the tag is among the tags that the
/// supported-languages derivation draws from the same candidates — lookup by
/// expansion and membership agree.
pub proof fn lemma_lookup_consistent(cs: Seq<Candidate>, tag: Seq<char>)
    ensures
        first_match(cs, tag) is Some <==> all_tags(cs).contains(tag),
    decreases cs.len(),
{
    if cs.len() > 0 {
        lemma_lookup_consistent(cs.drop_last(), tag);
        lemma_contains_add(all_tags(cs.drop_last()), contributed_tags(cs.last()), tag);
    }
}

/// Law: a strictly sorted sequence holds no duplicate entries, so the
/// supported-languages list never repeats a tag.
pub proof fn lemma_sorted_strict_no_duplicates(s: Seq<Seq<char>>)
    requires
        sorted_strict(s),
    ensures
        s.no_duplicates(),
{
    assert forall|i: int, j: int|
        0 <= i < s.len() && 0 <= j < s.len() && i != j implies s[i] != s[j] by {
        if i < j {
            assert(lex_lt(s[i], s[j]));
        } else {
            assert(lex_lt(s[j], s[i]));
        }
        if s[i] == s[j] {
            lemma_lex_lt_irreflexive(s[i]);
        }
    }
}

/// Law: the lookup result is the path of the first candidate, in discovery
/// order, that is a bundle whose expansion holds the tag; absence means no
/// candidate qualifies.
pub proof fn lemma_first_match_is_first(cs: Seq<Candidate>, tag: Seq<char>)
    ensures
        first_match(cs, tag) is None ==> forall|i: int|
            0 <= i < cs.len() ==> !candidate_matches(cs[i], tag),
        first_match(cs, tag) matches Some(p) ==> exists|i: int|
            0 <= i < cs.len() && #[trigger] candidate_matches(cs[i], tag) && p == cs[i].path@
                && (forall|j: int| 0 <= j < i ==> !candidate_matches(cs[j], tag)),
    decreases cs.len(),
{
    if cs.len() > 0 {
        let dl = cs.drop_last();
        lemma_first_match_is_first(dl, tag);
        assert(forall|j: int| 0 <= j < dl.len() ==> cs[j] == dl[j]);
        match first_match(dl, tag) {
            Some(p) => {
                let i = choose|i: int|
                    0 <= i < dl.len() && #[trigger] candidate_matches(dl[i], tag) && p
                        == dl[i].path@ && (forall|j: int|
                        0 <= j < i ==> !candidate_matches(dl[j], tag));
                assert(candidate_matches(cs[i], tag));
            },
            None => {
                if candidate_matches(cs.last(), tag) {
                    let i = cs.len() - 1;
                    assert(candidate_matches(cs[i], tag));
                }
            },
        }
    }
}

/// Law: when none of the walked files is a recognized bundle, no archive is
/// reported.
pub proof fn lemma_no_bundles_no_archives(ps: Seq<Seq<char>>)
    requires
        forall|i: int| 0 <= i < ps.len() ==> !is_bundle_path(ps[i]),
    ensures
        bundle_paths(ps) == Seq::<Seq<char>>::empty(),
    decreases ps.len(),
{
    reveal(Seq::filter);
    if ps.len() > 0 {
        assert(!is_bundle_path(ps.last()));
        lemma_no_bundles_no_archives(ps.drop_last());
    }
}

/// Law: when none of the candidates is a recognized bundle, no language is
/// supported.
pub proof fn lemma_no_bundles_no_languages(cs: Seq<Candidate>)
    requires
        forall|i: int| 0 <= i < cs.len() ==> !candidate_is_bundle(cs[i]),
    ensures
        all_tags(cs) == Seq::<Seq<char>>::empty(),
    decreases cs.len(),
{
    if cs.len() > 0 {
        assert(!candidate_is_bundle(cs.last()));
        lemma_no_bundles_no_languages(cs.drop_last());
        assert(all_tags(cs) =~= Seq::<Seq<char>>::empty());
    }
}

/// Membership in a pushed sequence is membership or equality with the new
/// last element.
proof fn lemma_contains_push<A>(s: Seq<A>, x: A)
    ensures
        forall|t: A| #[trigger] s.push(x).contains(t) <==> (s.contains(t) || t == x),
{
    assert forall|t: A| #[trigger] s.push(x).contains(t) <==> (s.contains(t) || t == x) by {
        lemma_contains_add(s, seq![x], t);
        assert(s.push(x) =~= s + seq![x]);
        if t == x {
            assert(seq![x][0] == x);
        }
    }
}

/// Inserts `tag` into a strictly sorted vector, keeping it sorted and
/// duplicate-free; the elements afterwards are the old ones plus `tag`.
fn sorted_insert(v: &mut Vec<String>, tag: String)
    requires
        sorted_strict(views(old(v)@)),
    ensures
        sorted_strict(views(final(v)@)),
        forall|t: Seq<char>|
            #[trigger] views(final(v)@).contains(t) <==> (views(old(v)@).contains(t) || t
                == tag@),
{
    let ghost w0 = views(old(v)@);
    let mut i: usize = 0;
    while i < v.len()
        invariant
            v@ == old(v)@,
            w0 == views(v@),
            sorted_strict(w0),
            i <= w0.len(),
            forall|j: int| 0 <= j < i ==> lex_lt(w0[j], tag@),
        decreases w0.len() - i,
    {
        if !str_lt(v[i].as_str(), tag.as_str()) {
            if str_eq(v[i].as_str(), tag.as_str()) {
                proof {
                    assert(w0[i as int] == tag@);
                    assert(w0.contains(tag@));
                }
                return ;
            }
            proof {
                if !lex_lt(tag@, w0[i as int]) {
                    lemma_lex_lt_connected(w0[i as int], tag@);
                }
                assert(lex_lt(tag@, w0[i as int]));
            }
            let ghost wi = views(v@.insert(i as int, tag));
            proof {
                assert(wi =~= w0.take(i as int) + seq![tag@] + w0.skip(i as int));
                assert(forall|k: int| 0 <= k < i ==> wi[k] == w0[k]);
                assert(wi[i as int] == tag@);
                assert(forall|k: int| i < k < wi.len() ==> wi[k] == w0[k - 1]);
                assert forall|x: int, y: int| 0 <= x < y < wi.len() implies lex_lt(
                    wi[x],
                    wi[y],
                ) by {
                    if y < i {
                    } else if x < i && y == i {
                    } else if x < i && y > i {
                        assert(lex_lt(w0[x], w0[y - 1]));
                    } else if x == i {
                        if y > i + 1 {
                            lemma_lex_lt_transitive(tag@, w0[i as int], w0[y - 1]);
                        }
                    } else {
                        assert(lex_lt(w0[x - 1], w0[y - 1]));
                    }
                }
                assert forall|t: Seq<char>| #[trigger]
                    wi.contains(t) <==> (w0.contains(t) || t == tag@) by {
                    lemma_contains_add(w0.take(i as int) + seq![tag@], w0.skip(i as int), t);
                    lemma_contains_add(w0.take(i as int), seq![tag@], t);
                    lemma_contains_add(w0.take(i as int), w0.skip(i as int), t);
                    assert(w0.take(i as int) + w0.skip(i as int) =~= w0);
                    if t == tag@ {
                        assert(seq![tag@][0] == tag@);
                    }
                }
            }
            v.insert(i, tag);
            proof {
                assert(views(v@) == wi);
            }
            return ;
        }
        i += 1;
    }
    proof {
        lemma_contains_push(w0, tag@);
        assert(views(v@.push(tag)) =~= w0.push(tag@));
    }
    v.push(tag);
}

} // verus!
