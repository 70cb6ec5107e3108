//! The opener catalog, the rule registry, and target resolution.

use vstd::prelude::*;
use crate::opener::{
    Opener, OpenerModel, opener_id, has_id, dup_free, dedup, contains_id, append_unique,
    lemma_dedup_dup_free, lemma_dedup_concat_left,
};
use crate::pattern::{MimeMatcher, NameMatcher};
use crate::text::str_eq;

verus! {

/// The sentinel content type that marks a target as a directory.
pub const MIME_DIR: &'static str = "inode/directory";

/// The character sequence of [`MIME_DIR`].
pub open spec fn dir_mime() -> Seq<char> {
    MIME_DIR@
}

/// Whether a content type names a directory.
pub open spec fn spec_is_dir(mime: Seq<char>) -> bool {
    mime == dir_mime()
}

/// A named, ordered group of openers.
pub struct Group {
    pub name: String,
    pub openers: Vec<Opener>,
}

/// One matching rule: an optional content-type pattern, an optional path
/// pattern, and the ordered names of the opener groups it uses.  A rule
/// with both patterns absent never fires.
pub struct OpenRule<M, N> {
    pub mime: Option<M>,
    pub name: Option<N>,
    pub use_: Vec<String>,
}

/// The opener catalog and the rule registry, fixed at construction.
/// Every query is a pure function of the target and of these two.
pub struct Open<M, N> {
    pub rules: Vec<OpenRule<M, N>>,
    pub catalog: Vec<Group>,
}

/// The openers of the first catalog group called `name`, or nothing if
/// no group bears that name.
pub open spec fn lookup(catalog: Seq<Group>, name: Seq<char>) -> Option<Seq<OpenerModel>>
    decreases catalog.len(),
{
    if catalog.len() == 0 {
        None
    } else if catalog[0].name@ == name {
        Some(catalog[0].openers.deep_view())
    } else {
        lookup(catalog.skip(1), name)
    }
}

/// What one referenced group name contributes: its openers if the name
/// is known, nothing otherwise.
pub open spec fn group_contrib(catalog: Seq<Group>, name: Seq<char>) -> Seq<OpenerModel> {
    match lookup(catalog, name) {
        Some(g) => g,
        None => Seq::empty(),
    }
}

/// The openers contributed by the groups of `use_`, concatenated in
/// listed order, not yet deduplicated.
pub open spec fn gather(catalog: Seq<Group>, use_: Seq<String>) -> Seq<OpenerModel>
    decreases use_.len(),
{
    if use_.len() == 0 {
        Seq::empty()
    } else {
        group_contrib(catalog, use_[0]@) + gather(catalog, use_.skip(1))
    }
}

/// The ordered, duplicate-free set a rule's `use_` list resolves to.
pub open spec fn rule_openers(catalog: Seq<Group>, use_: Seq<String>) -> Seq<OpenerModel> {
    dedup(gather(catalog, use_))
}

/// Whether a rule fires on a target: its content-type pattern accepts
/// the type, or its path pattern accepts the path.
pub open spec fn rule_matches<M: MimeMatcher, N: NameMatcher>(
    rule: OpenRule<M, N>,
    path: Seq<char>,
    mime: Seq<char>,
) -> bool {
    ||| (match rule.mime {
        Some(m) => m.spec_matches(mime),
        None => false,
    })
    ||| (match rule.name {
        Some(n) => n.spec_matches(path, spec_is_dir(mime)),
        None => false,
    })
}

/// Single-target resolution: the set of the first rule that fires and
/// resolves to a non-empty set.  A rule that does not fire, or fires but
/// resolves to nothing, is passed over; if no rule yields a non-empty
/// set, the answer is nothing.
pub open spec fn resolve<M: MimeMatcher, N: NameMatcher>(
    rules: Seq<OpenRule<M, N>>,
    catalog: Seq<Group>,
    path: Seq<char>,
    mime: Seq<char>,
) -> Option<Seq<OpenerModel>>
    decreases rules.len(),
{
    if rules.len() == 0 {
        None
    } else if rule_matches(rules[0], path, mime) && rule_openers(catalog, rules[0].use_@).len() > 0 {
        Some(rule_openers(catalog, rules[0].use_@))
    } else {
        resolve(rules.skip(1), catalog, path, mime)
    }
}

/// The first entry of `s` flagged blocking, if any.
pub open spec fn first_blocking(s: Seq<OpenerModel>) -> Option<OpenerModel>
    decreases s.len(),
{
    if s.len() == 0 {
        None
    } else if s[0].block {
        Some(s[0])
    } else {
        first_blocking(s.skip(1))
    }
}

/// The first blocking opener of the target's resolved set, if the target
/// resolves at all and its set holds one.
pub open spec fn resolve_blocking<M: MimeMatcher, N: NameMatcher>(
    rules: Seq<OpenRule<M, N>>,
    catalog: Seq<Group>,
    path: Seq<char>,
    mime: Seq<char>,
) -> Option<OpenerModel> {
    match resolve(rules, catalog, path, mime) {
        Some(s) => first_blocking(s),
        None => None,
    }
}

/// The resolved sets of the targets that resolve at all, in target
/// order; a target that resolves to nothing is simply absent.
pub open spec fn matched_sets<M: MimeMatcher, N: NameMatcher>(
    rules: Seq<OpenRule<M, N>>,
    catalog: Seq<Group>,
    targets: Seq<(String, String)>,
) -> Seq<Seq<OpenerModel>>
    decreases targets.len(),
{
    if targets.len() == 0 {
        Seq::empty()
    } else {
        let rest = matched_sets(rules, catalog, targets.skip(1));
        match resolve(rules, catalog, targets[0].0@, targets[0].1@) {
            Some(s) => seq![s] + rest,
            None => rest,
        }
    }
}

/// The concatenation of a sequence of sets, in order.
pub open spec fn concat_all(gs: Seq<Seq<OpenerModel>>) -> Seq<OpenerModel>
    decreases gs.len(),
{
    if gs.len() == 0 {
        Seq::empty()
    } else {
        gs[0] + concat_all(gs.skip(1))
    }
}

/// Whether identity `id` occurs in every set of `gs`.
pub open spec fn in_all(gs: Seq<Seq<OpenerModel>>, id: (Seq<char>, Seq<Seq<char>>)) -> bool {
    forall|i: int| 0 <= i < gs.len() ==> has_id(#[trigger] gs[i], id)
}

/// The predicate of the common set: membership in every matched set.
pub open spec fn common_pred(gs: Seq<Seq<OpenerModel>>) -> spec_fn(OpenerModel) -> bool {
    |o: OpenerModel| in_all(gs, opener_id(o))
}

/// Batch resolution: the candidates are the matched sets flattened in
/// target order and deduplicated by identity; of those, the common set
/// keeps exactly the ones present in every matched set.  Targets that
/// resolve to nothing impose no constraint.
pub open spec fn common<M: MimeMatcher, N: NameMatcher>(
    rules: Seq<OpenRule<M, N>>,
    catalog: Seq<Group>,
    targets: Seq<(String, String)>,
) -> Seq<OpenerModel> {
    let gs = matched_sets(rules, catalog, targets);
    dedup(concat_all(gs)).filter(common_pred(gs))
}

/// Decides whether a content type names a directory.
pub fn is_dir_mime(mime: &str) -> (r: bool)
    ensures
        r == spec_is_dir(mime@),
{
    str_eq(mime, MIME_DIR)
}

/// Finds the first catalog group called `name`.
fn find_group<'a>(catalog: &'a Vec<Group>, name: &String) -> (r: Option<&'a Vec<Opener>>)
    ensures
        match r {
            Some(g) => lookup(catalog@, name@) == Some(g.deep_view()),
            None => lookup(catalog@, name@) is None,
        },
{
    proof {
        assert(catalog@.skip(0) =~= catalog@);
    }
    let mut i: usize = 0;
    while i < catalog.len()
        invariant
            i <= catalog@.len(),
            lookup(catalog@, name@) == lookup(catalog@.skip(i as int), name@),
        decreases catalog@.len() - i,
    {
        if str_eq(catalog[i].name.as_str(), name.as_str()) {
            proof {
                assert(catalog@.skip(i as int)[0] == catalog@[i as int]);
            }
            return Some(&catalog[i].openers);
        }
        proof {
            assert(catalog@.skip(i as int)[0] == catalog@[i as int]);
            assert(catalog@.skip(i as int).skip(1) =~= catalog@.skip(i as int + 1));
        }
        i += 1;
    }
    None
}

/// Appending one more group name extends the gathered sequence by that
/// name's contribution.
pub proof fn lemma_gather_snoc(catalog: Seq<Group>, use_: Seq<String>, x: String)
    ensures
        gather(catalog, use_.push(x)) == gather(catalog, use_) + group_contrib(catalog, x@),
    decreases use_.len(),
{
    if use_.len() == 0 {
        assert(use_.push(x)[0] == x);
        assert(use_.push(x).skip(1) =~= use_);
        assert(gather(catalog, use_.push(x)) =~= gather(catalog, use_) + group_contrib(catalog, x@));
    } else {
        assert(use_.push(x).skip(1) =~= use_.skip(1).push(x));
        lemma_gather_snoc(catalog, use_.skip(1), x);
        assert(use_.push(x)[0] == use_[0]);
        assert(gather(catalog, use_.push(x))
            =~= gather(catalog, use_) + group_contrib(catalog, x@));
    }
}

/// Resolves a rule's `use_` list against the catalog: concatenates the
/// groups it names in order, skipping unknown names, and deduplicates
/// by identity, first occurrence winning.
fn resolve_use(catalog: &Vec<Group>, use_: &Vec<String>) -> (r: Vec<Opener>)
    ensures
        r.deep_view() == rule_openers(catalog@, use_@),
{
    let mut acc: Vec<Opener> = Vec::new();
    proof {
        assert(acc.deep_view() =~= Seq::<OpenerModel>::empty());
        assert(gather(catalog@, use_@.take(0)) =~= Seq::<OpenerModel>::empty());
        assert(acc.deep_view() =~= dedup(gather(catalog@, use_@.take(0))));
        lemma_dedup_dup_free(gather(catalog@, use_@.take(0)));
    }
    let mut i: usize = 0;
    while i < use_.len()
        invariant
            i <= use_@.len(),
            acc.deep_view() == dedup(gather(catalog@, use_@.take(i as int))),
            dup_free(acc.deep_view()),
        decreases use_@.len() - i,
    {
        let ghost gathered = gather(catalog@, use_@.take(i as int));
        proof {
            assert(use_@.take(i as int).push(use_@[i as int]) =~= use_@.take(i as int + 1));
            lemma_gather_snoc(catalog@, use_@.take(i as int), use_@[i as int]);
        }
        match find_group(catalog, &use_[i]) {
            Some(g) => {
                append_unique(&mut acc, g);
                proof {
                    lemma_dedup_concat_left(gathered, g.deep_view());
                }
            },
            None => {
                proof {
                    assert(gather(catalog@, use_@.take(i as int + 1))
                        =~= gathered + Seq::<OpenerModel>::empty());
                    assert(gather(catalog@, use_@.take(i as int + 1)) =~= gathered);
                }
            },
        }
        i += 1;
    }
    proof {
        assert(use_@.take(use_@.len() as int) =~= use_@);
    }
    acc
}

/// Appending one more target extends the matched sets by that target's
/// resolved set, or by nothing if it resolves to nothing.
pub proof fn lemma_matched_snoc<M: MimeMatcher, N: NameMatcher>(
    rules: Seq<OpenRule<M, N>>,
    catalog: Seq<Group>,
    ts: Seq<(String, String)>,
    t: (String, String),
)
    ensures
        matched_sets(rules, catalog, ts.push(t)) == matched_sets(rules, catalog, ts) + (
        match resolve(rules, catalog, t.0@, t.1@) {
            Some(s) => seq![s],
            None => Seq::<Seq<OpenerModel>>::empty(),
        }),
    decreases ts.len(),
{
    let ghost tail = match resolve(rules, catalog, t.0@, t.1@) {
        Some(s) => seq![s],
        None => Seq::<Seq<OpenerModel>>::empty(),
    };
    if ts.len() == 0 {
        assert(ts.push(t)[0] == t);
        assert(ts.push(t).skip(1) =~= ts);
        assert(matched_sets(rules, catalog, ts.push(t))
            =~= matched_sets(rules, catalog, ts) + tail);
    } else {
        assert(ts.push(t)[0] == ts[0]);
        assert(ts.push(t).skip(1) =~= ts.skip(1).push(t));
        lemma_matched_snoc(rules, catalog, ts.skip(1), t);
        assert(matched_sets(rules, catalog, ts.push(t))
            =~= matched_sets(rules, catalog, ts) + tail);
    }
}

/// Appending one more set extends the concatenation by that set.
pub proof fn lemma_concat_snoc(gs: Seq<Seq<OpenerModel>>, g: Seq<OpenerModel>)
    ensures
        concat_all(gs.push(g)) == concat_all(gs) + g,
    decreases gs.len(),
{
    if gs.len() == 0 {
        assert(gs.push(g)[0] == g);
        assert(gs.push(g).skip(1) =~= gs);
        assert(concat_all(gs.push(g)) =~= concat_all(gs) + g);
    } else {
        assert(gs.push(g)[0] == gs[0]);
        assert(gs.push(g).skip(1) =~= gs.skip(1).push(g));
        lemma_concat_snoc(gs.skip(1), g);
        assert(concat_all(gs.push(g)) =~= concat_all(gs) + g);
    }
}

/// A known group name looks up a duplicate-free sequence whenever every
/// catalog group is duplicate-free.
pub proof fn lemma_lookup_dup_free(catalog: Seq<Group>, name: Seq<char>)
    requires
        forall|i: int| 0 <= i < catalog.len()
            ==> dup_free((#[trigger] catalog[i]).openers.deep_view()),
    ensures
        match lookup(catalog, name) {
            Some(g) => dup_free(g),
            None => true,
        },
    decreases catalog.len(),
{
    if catalog.len() > 0 && catalog[0].name@ != name {
        assert forall|i: int| 0 <= i < catalog.skip(1).len()
            implies dup_free((#[trigger] catalog.skip(1)[i]).openers.deep_view()) by {
            assert(catalog.skip(1)[i] == catalog[i + 1]);
        }
        lemma_lookup_dup_free(catalog.skip(1), name);
    }
}

/// Whether `grouped` holds `o`'s identity in every one of its members.
fn in_all_groups(grouped: &Vec<Vec<Opener>>, o: &Opener) -> (r: bool)
    ensures
        r == in_all(grouped.deep_view(), opener_id(o.deep_view())),
{
    proof {
        assert(grouped.deep_view().len() == grouped@.len());
    }
    let mut k: usize = 0;
    while k < grouped.len()
        invariant
            k <= grouped@.len(),
            grouped.deep_view().len() == grouped@.len(),
            forall|m: int| 0 <= m < k
                ==> has_id(#[trigger] grouped.deep_view()[m], opener_id(o.deep_view())),
        decreases grouped@.len() - k,
    {
        proof {
            assert(grouped.deep_view()[k as int] == grouped@[k as int].deep_view());
        }
        if !contains_id(&grouped[k], o) {
            return false;
        }
        k += 1;
    }
    true
}

impl<M: MimeMatcher, N: NameMatcher> Open<M, N> {
    /// Builds the structure from a declarative catalog and rule list.
    /// Within each group, later entries that repeat an earlier entry's
    /// identity are silently dropped, the first occurrence keeping its
    /// position; the rules are taken as given, in order.
    pub fn new(catalog: Vec<Group>, rules: Vec<OpenRule<M, N>>) -> (r: Open<M, N>)
        ensures
            r.rules@ == rules@,
            r.catalog@.len() == catalog@.len(),
            forall|i: int| 0 <= i < catalog@.len() ==> {
                &&& (#[trigger] r.catalog@[i]).name@ == catalog@[i].name@
                &&& r.catalog@[i].openers.deep_view() == dedup(catalog@[i].openers.deep_view())
            },
            r.wf(),
    {
        let mut cat: Vec<Group> = Vec::new();
        let mut i: usize = 0;
        while i < catalog.len()
            invariant
                i <= catalog@.len(),
                cat@.len() == i,
                forall|k: int| 0 <= k < i ==> {
                    &&& (#[trigger] cat@[k]).name@ == catalog@[k].name@
                    &&& cat@[k].openers.deep_view() == dedup(catalog@[k].openers.deep_view())
                },
            decreases catalog@.len() - i,
        {
            let mut members: Vec<Opener> = Vec::new();
            proof {
                assert(members.deep_view() =~= Seq::<OpenerModel>::empty());
            }
            append_unique(&mut members, &catalog[i].openers);
            proof {
                assert(Seq::<OpenerModel>::empty() + catalog@[i as int].openers.deep_view()
                    =~= catalog@[i as int].openers.deep_view());
            }
            cat.push(Group { name: catalog[i].name.clone(), openers: members });
            i += 1;
        }
        let r = Open { rules, catalog: cat };
        proof {
            assert forall|i: int| 0 <= i < r.catalog@.len()
                implies dup_free((#[trigger] r.catalog@[i]).openers.deep_view()) by {
                lemma_dedup_dup_free(catalog@[i].openers.deep_view());
            }
        }
        r
    }

    /// Every group stored in the catalog is free of duplicate identities.
    pub open spec fn wf(self) -> bool {
        forall|i: int| 0 <= i < self.catalog@.len()
            ==> dup_free((#[trigger] self.catalog@[i]).openers.deep_view())
    }

    /// Resolves one target to its ordered set of openers, or to nothing:
    /// the registry is scanned in declared order, and the first rule that
    /// fires on the target and resolves to a non-empty set answers.
    pub fn openers(&self, path: &str, mime: &str) -> (r: Option<Vec<Opener>>)
        ensures
            match r {
                Some(v) => resolve(self.rules@, self.catalog@, path@, mime@) == Some(v.deep_view()),
                None => resolve(self.rules@, self.catalog@, path@, mime@) is None,
            },
    {
        let folder = is_dir_mime(mime);
        proof {
            assert(self.rules@.skip(0) =~= self.rules@);
        }
        let mut i: usize = 0;
        while i < self.rules.len()
            invariant
                i <= self.rules@.len(),
                folder == spec_is_dir(mime@),
                resolve(self.rules@, self.catalog@, path@, mime@)
                    == resolve(self.rules@.skip(i as int), self.catalog@, path@, mime@),
            decreases self.rules@.len() - i,
        {
            proof {
                assert(self.rules@.skip(i as int)[0] == self.rules@[i as int]);
                assert(self.rules@.skip(i as int).skip(1) =~= self.rules@.skip(i as int + 1));
            }
            let rule = &self.rules[i];
            let fired = (match &rule.mime {
                Some(m) => m.matches(mime),
                None => false,
            }) || (match &rule.name {
                Some(n) => n.match_path(path, folder),
                None => false,
            });
            if fired {
                let found = resolve_use(&self.catalog, &rule.use_);
                if found.len() > 0 {
                    proof {
                        assert(found.deep_view().len() == found@.len());
                    }
                    return Some(found);
                }
                proof {
                    assert(rule_openers(self.catalog@, self.rules@[i as int].use_@).len() == 0);
                }
            }
            i += 1;
        }
        None
    }

    /// Resolves one target and returns the first opener of its set that
    /// is flagged blocking, or nothing if the target resolves to nothing
    /// or no entry of its set blocks.
    pub fn block_opener(&self, path: &str, mime: &str) -> (r: Option<Opener>)
        ensures
            match r {
                Some(o) => resolve_blocking(self.rules@, self.catalog@, path@, mime@)
                    == Some(o.deep_view()),
                None => resolve_blocking(self.rules@, self.catalog@, path@, mime@) is None,
            },
    {
        match self.openers(path, mime) {
            Some(v) => {
                let ghost s = v.deep_view();
                proof {
                    assert(s.len() == v@.len());
                    assert(s.skip(0) =~= s);
                }
                let mut i: usize = 0;
                while i < v.len()
                    invariant
                        i <= v@.len(),
                        s == v.deep_view(),
                        s.len() == v@.len(),
                        resolve(self.rules@, self.catalog@, path@, mime@) == Some(s),
                        first_blocking(s) == first_blocking(s.skip(i as int)),
                    decreases v@.len() - i,
                {
                    proof {
                        assert(s.skip(i as int)[0] == s[i as int]);
                        assert(s[i as int] == v@[i as int].deep_view());
                        assert(s.skip(i as int).skip(1) =~= s.skip(i as int + 1));
                    }
                    let o = &v[i];
                    if o.block {
                        let c = o.clone();
                        proof {
                            assert(s.skip(i as int)[0].block);
                            assert(first_blocking(s.skip(i as int)) == Some(s[i as int]));
                            assert(c.deep_view() == s[i as int]);
                            assert(resolve(self.rules@, self.catalog@, path@, mime@) == Some(s));
                            assert(resolve_blocking(self.rules@, self.catalog@, path@, mime@)
                                == first_blocking(s));
                        }
                        return Some(c);
                    }
                    i += 1;
                }
                proof {
                    assert(s.skip(v@.len() as int) =~= Seq::<OpenerModel>::empty());
                }
                None
            },
            None => None,
        }
    }

    /// The openers registered under `name`, or nothing for an unknown
    /// name.  On a structure built by [`Open::new`] the sequence is
    /// duplicate-free; see [`lemma_lookup_dup_free`].
    pub fn group_openers<'a>(&'a self, name: &String) -> (r: Option<&'a Vec<Opener>>)
        ensures
            match r {
                Some(g) => lookup(self.catalog@, name@) == Some(g.deep_view()),
                None => lookup(self.catalog@, name@) is None,
            },
    {
        find_group(&self.catalog, name)
    }

    /// Resolves a whole batch: the result holds, in first-seen order
    /// across the batch and without duplicate identities, exactly the
    /// openers present in the resolved set of every target that resolves
    /// at all.  Targets that resolve to nothing impose no constraint;
    /// if no target resolves, the result is empty.
    pub fn common_openers(&self, targets: &Vec<(String, String)>) -> (r: Vec<Opener>)
        ensures
            r.deep_view() == common(self.rules@, self.catalog@, targets@),
    {
        let mut grouped: Vec<Vec<Opener>> = Vec::new();
        proof {
            assert(targets@.take(0) =~= Seq::<(String, String)>::empty());
            assert(grouped.deep_view()
                =~= matched_sets(self.rules@, self.catalog@, targets@.take(0)));
        }
        let mut i: usize = 0;
        while i < targets.len()
            invariant
                i <= targets@.len(),
                grouped.deep_view()
                    == matched_sets(self.rules@, self.catalog@, targets@.take(i as int)),
            decreases targets@.len() - i,
        {
            let ghost pre = grouped.deep_view();
            proof {
                assert(targets@.take(i as int).push(targets@[i as int])
                    =~= targets@.take(i as int + 1));
                lemma_matched_snoc(self.rules@, self.catalog@, targets@.take(i as int),
                    targets@[i as int]);
            }
            let t = &targets[i];
            match self.openers(t.0.as_str(), t.1.as_str()) {
                Some(v) => {
                    let ghost s = v.deep_view();
                    grouped.push(v);
                    proof {
                        assert(grouped.deep_view() =~= pre.push(s));
                        assert(pre.push(s) =~= pre + seq![s]);
                    }
                },
                None => {
                    proof {
                        assert(pre + Seq::<Seq<OpenerModel>>::empty() =~= pre);
                    }
                },
            }
            i += 1;
        }
        let ghost gs = grouped.deep_view();
        proof {
            assert(targets@.take(targets@.len() as int) =~= targets@);
            assert(gs == matched_sets(self.rules@, self.catalog@, targets@));
            assert(gs.len() == grouped@.len());
        }
        let mut flat: Vec<Opener> = Vec::new();
        proof {
            assert(gs.take(0) =~= Seq::<Seq<OpenerModel>>::empty());
            assert(flat.deep_view() =~= Seq::<OpenerModel>::empty());
            assert(flat.deep_view() =~= dedup(concat_all(gs.take(0))));
            lemma_dedup_dup_free(concat_all(gs.take(0)));
        }
        let mut k: usize = 0;
        while k < grouped.len()
            invariant
                k <= grouped@.len(),
                gs == grouped.deep_view(),
                gs.len() == grouped@.len(),
                flat.deep_view() == dedup(concat_all(gs.take(k as int))),
                dup_free(flat.deep_view()),
            decreases grouped@.len() - k,
        {
            proof {
                assert(gs.take(k as int).push(gs[k as int]) =~= gs.take(k as int + 1));
                lemma_concat_snoc(gs.take(k as int), gs[k as int]);
                assert(gs[k as int] == grouped@[k as int].deep_view());
            }
            append_unique(&mut flat, &grouped[k]);
            proof {
                lemma_dedup_concat_left(concat_all(gs.take(k as int)), gs[k as int]);
            }
            k += 1;
        }
        let ghost fseq = flat.deep_view();
        proof {
            assert(gs.take(grouped@.len() as int) =~= gs);
            assert(fseq == dedup(concat_all(gs)));
            assert(fseq.len() == flat@.len());
            assert(fseq.take(0) =~= Seq::<OpenerModel>::empty());
            reveal(Seq::<_>::filter);
            assert(fseq.take(0).filter(common_pred(gs)) =~= Seq::<OpenerModel>::empty());
        }
        let mut out: Vec<Opener> = Vec::new();
        proof {
            assert(out.deep_view() =~= fseq.take(0).filter(common_pred(gs)));
        }
        let mut k: usize = 0;
        while k < flat.len()
            invariant
                k <= flat@.len(),
                gs == grouped.deep_view(),
                fseq == flat.deep_view(),
                fseq.len() == flat@.len(),
                out.deep_view() == fseq.take(k as int).filter(common_pred(gs)),
            decreases flat@.len() - k,
        {
            proof {
                reveal(Seq::<_>::filter);
                assert(fseq.take(k as int + 1).drop_last() =~= fseq.take(k as int));
                assert(fseq.take(k as int + 1).last() == fseq[k as int]);
                assert(fseq[k as int] == flat@[k as int].deep_view());
            }
            let o = &flat[k];
            let keep = in_all_groups(&grouped, o);
            proof {
                assert(common_pred(gs)(fseq[k as int]) == in_all(gs, opener_id(fseq[k as int])));
            }
            if keep {
                let ghost before = out.deep_view();
                out.push(o.clone());
                proof {
                    reveal(Seq::<_>::filter);
                    assert(out.deep_view() =~= before.push(fseq[k as int]));
                    assert(fseq.take(k as int + 1).filter(common_pred(gs)) =~= out.deep_view());
                }
            } else {
                proof {
                    reveal(Seq::<_>::filter);
                    assert(fseq.take(k as int + 1).filter(common_pred(gs)) =~= out.deep_view());
                }
            }
            k += 1;
        }
        proof {
            assert(fseq.take(flat@.len() as int) =~= fseq);
        }
        out
    }
}

} // verus!
