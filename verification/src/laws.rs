//! The laws of resolution, stated and proved over the model.
//!
//! Each proof function here states one guarantee of the resolution
//! algorithms for every registry, catalog and target, beyond the
//! contracts of the individual methods.

use vstd::prelude::*;
use crate::opener::{
    OpenerModel, opener_id, has_id, dup_free, dedup,
    lemma_has_id_concat, lemma_dedup_dup_free, lemma_dedup_of_dup_free, lemma_dedup_absorb,
};
use crate::pattern::{MimeMatcher, NameMatcher};
use crate::open::{
    Group, OpenRule, group_contrib, gather, rule_openers, rule_matches, resolve,
    matched_sets, concat_all, common_pred, common, lemma_gather_snoc,
};

verus! {

/// Every set that resolution returns is non-empty and duplicate-free.
pub proof fn lemma_resolve_well_formed<M: MimeMatcher, N: NameMatcher>(
    rules: Seq<OpenRule<M, N>>,
    catalog: Seq<Group>,
    path: Seq<char>,
    mime: Seq<char>,
)
    ensures
        match resolve(rules, catalog, path, mime) {
            Some(s) => s.len() > 0 && dup_free(s),
            None => true,
        },
    decreases rules.len(),
{
    if rules.len() > 0 {
        if rule_matches(rules[0], path, mime) && rule_openers(catalog, rules[0].use_@).len() > 0 {
            lemma_dedup_dup_free(gather(catalog, rules[0].use_@));
        } else {
            lemma_resolve_well_formed(rules.skip(1), catalog, path, mime);
        }
    }
}

/// First match wins: when rule `i` fires on the target and resolves to a
/// non-empty set, the rules after `i` play no part in the answer — the
/// whole registry resolves exactly as its first `i + 1` rules do, and an
/// answer exists.
pub proof fn lemma_first_match_wins<M: MimeMatcher, N: NameMatcher>(
    rules: Seq<OpenRule<M, N>>,
    catalog: Seq<Group>,
    path: Seq<char>,
    mime: Seq<char>,
    i: int,
)
    requires
        0 <= i < rules.len(),
        rule_matches(rules[i], path, mime),
        rule_openers(catalog, rules[i].use_@).len() > 0,
    ensures
        resolve(rules, catalog, path, mime)
            == resolve(rules.take(i + 1), catalog, path, mime),
        resolve(rules, catalog, path, mime) is Some,
    decreases i,
{
    assert(rules.take(i + 1)[0] == rules[0]);
    if rule_matches(rules[0], path, mime) && rule_openers(catalog, rules[0].use_@).len() > 0 {
        assert(resolve(rules, catalog, path, mime)
            == Some(rule_openers(catalog, rules[0].use_@)));
    } else {
        assert(i > 0);
        assert(rules.skip(1)[i - 1] == rules[i]);
        lemma_first_match_wins(rules.skip(1), catalog, path, mime, i - 1);
        assert(rules.take(i + 1).skip(1) =~= rules.skip(1).take(i));
    }
}

/// Fallthrough: a rule that is passed over — because it does not fire on
/// the target, or because it fires but resolves to an empty set — does
/// not change the answer; the registry resolves as if the rule were not
/// there.  In particular a matching rule with an empty set never
/// suppresses a later matching rule with a non-empty one.
pub proof fn lemma_skipped_rule_falls_through<M: MimeMatcher, N: NameMatcher>(
    rules: Seq<OpenRule<M, N>>,
    catalog: Seq<Group>,
    path: Seq<char>,
    mime: Seq<char>,
    i: int,
)
    requires
        0 <= i < rules.len(),
        !rule_matches(rules[i], path, mime) || rule_openers(catalog, rules[i].use_@).len() == 0,
    ensures
        resolve(rules, catalog, path, mime)
            == resolve(rules.remove(i), catalog, path, mime),
    decreases i,
{
    if i == 0 {
        assert(rules.remove(0) =~= rules.skip(1));
    } else {
        assert(rules.remove(i)[0] == rules[0]);
        if rule_matches(rules[0], path, mime) && rule_openers(catalog, rules[0].use_@).len() > 0 {
            assert(resolve(rules.remove(i), catalog, path, mime)
                == Some(rule_openers(catalog, rules[0].use_@)));
        } else {
            assert(rules.skip(1)[i - 1] == rules[i]);
            lemma_skipped_rule_falls_through(rules.skip(1), catalog, path, mime, i - 1);
            assert(rules.remove(i).skip(1) =~= rules.skip(1).remove(i - 1));
        }
    }
}

/// Every identity contributed by the group named at position `k` of a
/// `use_` list is already among the identities gathered from the list.
proof fn lemma_gather_covers_group(catalog: Seq<Group>, use_: Seq<String>, k: int)
    requires
        0 <= k < use_.len(),
    ensures
        forall|id: (Seq<char>, Seq<Seq<char>>)|
            #[trigger] has_id(group_contrib(catalog, use_[k]@), id)
                ==> has_id(gather(catalog, use_), id),
    decreases k,
{
    assert forall|id: (Seq<char>, Seq<Seq<char>>)|
        #[trigger] has_id(group_contrib(catalog, use_[k]@), id)
            implies has_id(gather(catalog, use_), id) by {
        if k == 0 {
            lemma_has_id_concat(group_contrib(catalog, use_[0]@),
                gather(catalog, use_.skip(1)), id);
        } else {
            assert(use_.skip(1)[k - 1] == use_[k]);
            lemma_gather_covers_group(catalog, use_.skip(1), k - 1);
            lemma_has_id_concat(group_contrib(catalog, use_[0]@),
                gather(catalog, use_.skip(1)), id);
        }
    }
}

/// Listing a group a second time changes nothing: a `use_` list extended
/// by a name it already holds resolves to the same ordered set.
pub proof fn lemma_duplicate_use_ignored(catalog: Seq<Group>, use_: Seq<String>, k: int)
    requires
        0 <= k < use_.len(),
    ensures
        rule_openers(catalog, use_.push(use_[k])) == rule_openers(catalog, use_),
{
    lemma_gather_snoc(catalog, use_, use_[k]);
    lemma_gather_covers_group(catalog, use_, k);
    lemma_dedup_absorb(gather(catalog, use_), group_contrib(catalog, use_[k]@));
}

/// A sequence whose entries all satisfy the predicate filters to itself.
proof fn lemma_filter_all(s: Seq<OpenerModel>, pred: spec_fn(OpenerModel) -> bool)
    requires
        forall|i: int| 0 <= i < s.len() ==> pred(#[trigger] s[i]),
    ensures
        s.filter(pred) == s,
    decreases s.len(),
{
    reveal(Seq::<_>::filter);
    if s.len() > 0 {
        lemma_filter_all(s.drop_last(), pred);
        assert(pred(s[s.len() - 1]));
        assert(s.drop_last().push(s.last()) =~= s);
    }
}

/// A sequence none of whose entries satisfies the predicate filters to
/// the empty sequence.
proof fn lemma_filter_none(s: Seq<OpenerModel>, pred: spec_fn(OpenerModel) -> bool)
    requires
        forall|i: int| 0 <= i < s.len() ==> !pred(#[trigger] s[i]),
    ensures
        s.filter(pred) == Seq::<OpenerModel>::empty(),
    decreases s.len(),
{
    reveal(Seq::<_>::filter);
    if s.len() > 0 {
        lemma_filter_none(s.drop_last(), pred);
        assert(!pred(s[s.len() - 1]));
    }
}

/// The common set over a single matched set is that set itself, as long
/// as the set is duplicate-free.
proof fn lemma_common_of_one_set(s: Seq<OpenerModel>)
    requires
        dup_free(s),
    ensures
        dedup(concat_all(seq![s])).filter(common_pred(seq![s])) == s,
{
    let gs = seq![s];
    assert(gs[0] == s);
    assert(gs.skip(1) =~= Seq::<Seq<OpenerModel>>::empty());
    assert(concat_all(Seq::<Seq<OpenerModel>>::empty()) == Seq::<OpenerModel>::empty());
    assert(concat_all(gs) =~= s);
    lemma_dedup_of_dup_free(s);
    assert forall|i: int| 0 <= i < s.len() implies common_pred(gs)(#[trigger] s[i]) by {
        assert(has_id(s, opener_id(s[i])));
        assert(forall|m: int| 0 <= m < gs.len() ==> has_id(#[trigger] gs[m], opener_id(s[i])));
    }
    lemma_filter_all(s, common_pred(gs));
}

/// A batch with no targets has an empty common set.
pub proof fn lemma_common_no_targets<M: MimeMatcher, N: NameMatcher>(
    rules: Seq<OpenRule<M, N>>,
    catalog: Seq<Group>,
)
    ensures
        common(rules, catalog, Seq::<(String, String)>::empty()) == Seq::<OpenerModel>::empty(),
{
    reveal(Seq::<_>::filter);
    let gs = matched_sets(rules, catalog, Seq::<(String, String)>::empty());
    assert(gs =~= Seq::<Seq<OpenerModel>>::empty());
    assert(dedup(concat_all(gs)) =~= Seq::<OpenerModel>::empty());
}

/// A batch of one target has that target's resolved set as its common
/// set, in the same order, or an empty one if the target resolves to
/// nothing.
pub proof fn lemma_common_single_target<M: MimeMatcher, N: NameMatcher>(
    rules: Seq<OpenRule<M, N>>,
    catalog: Seq<Group>,
    t: (String, String),
)
    ensures
        match resolve(rules, catalog, t.0@, t.1@) {
            Some(s) => common(rules, catalog, seq![t]) == s,
            None => common(rules, catalog, seq![t]) == Seq::<OpenerModel>::empty(),
        },
{
    let ts = seq![t];
    assert(ts[0] == t);
    assert(ts.skip(1) =~= Seq::<(String, String)>::empty());
    assert(matched_sets(rules, catalog, Seq::<(String, String)>::empty())
        == Seq::<Seq<OpenerModel>>::empty());
    let gs = matched_sets(rules, catalog, ts);
    match resolve(rules, catalog, t.0@, t.1@) {
        Some(s) => {
            assert(gs =~= seq![s]);
            lemma_resolve_well_formed(rules, catalog, t.0@, t.1@);
            lemma_common_of_one_set(s);
        },
        None => {
            reveal(Seq::<_>::filter);
            assert(gs =~= Seq::<Seq<OpenerModel>>::empty());
            assert(dedup(concat_all(gs)) =~= Seq::<OpenerModel>::empty());
        },
    }
}

/// In a batch where no target resolves, nothing is matched.
proof fn lemma_matched_sets_all_none<M: MimeMatcher, N: NameMatcher>(
    rules: Seq<OpenRule<M, N>>,
    catalog: Seq<Group>,
    targets: Seq<(String, String)>,
)
    requires
        forall|j: int| 0 <= j < targets.len()
            ==> resolve(rules, catalog, (#[trigger] targets[j]).0@, targets[j].1@) is None,
    ensures
        matched_sets(rules, catalog, targets) == Seq::<Seq<OpenerModel>>::empty(),
    decreases targets.len(),
{
    if targets.len() > 0 {
        assert forall|j: int| 0 <= j < targets.skip(1).len()
            implies resolve(rules, catalog, (#[trigger] targets.skip(1)[j]).0@,
                targets.skip(1)[j].1@) is None by {
            assert(targets.skip(1)[j] == targets[j + 1]);
        }
        lemma_matched_sets_all_none(rules, catalog, targets.skip(1));
        assert(targets[0] == targets[0]);
    }
}

/// In a batch where exactly one target resolves, the common set is that
/// target's resolved set: targets that resolve to nothing impose no
/// constraint.
pub proof fn lemma_common_one_match<M: MimeMatcher, N: NameMatcher>(
    rules: Seq<OpenRule<M, N>>,
    catalog: Seq<Group>,
    targets: Seq<(String, String)>,
    k: int,
    s: Seq<OpenerModel>,
)
    requires
        0 <= k < targets.len(),
        resolve(rules, catalog, targets[k].0@, targets[k].1@) == Some(s),
        forall|j: int| 0 <= j < targets.len() && j != k
            ==> resolve(rules, catalog, (#[trigger] targets[j]).0@, targets[j].1@) is None,
    ensures
        common(rules, catalog, targets) == s,
{
    lemma_matched_sets_one(rules, catalog, targets, k, s);
    lemma_resolve_well_formed(rules, catalog, targets[k].0@, targets[k].1@);
    lemma_common_of_one_set(s);
}

/// In such a batch the matched sets are exactly the one resolved set.
proof fn lemma_matched_sets_one<M: MimeMatcher, N: NameMatcher>(
    rules: Seq<OpenRule<M, N>>,
    catalog: Seq<Group>,
    targets: Seq<(String, String)>,
    k: int,
    s: Seq<OpenerModel>,
)
    requires
        0 <= k < targets.len(),
        resolve(rules, catalog, targets[k].0@, targets[k].1@) == Some(s),
        forall|j: int| 0 <= j < targets.len() && j != k
            ==> resolve(rules, catalog, (#[trigger] targets[j]).0@, targets[j].1@) is None,
    ensures
        matched_sets(rules, catalog, targets) == seq![s],
    decreases targets.len(),
{
    if k == 0 {
        assert forall|j: int| 0 <= j < targets.skip(1).len()
            implies resolve(rules, catalog, (#[trigger] targets.skip(1)[j]).0@,
                targets.skip(1)[j].1@) is None by {
            assert(targets.skip(1)[j] == targets[j + 1]);
        }
        lemma_matched_sets_all_none(rules, catalog, targets.skip(1));
        assert(matched_sets(rules, catalog, targets)
            == seq![s] + matched_sets(rules, catalog, targets.skip(1)));
        assert(seq![s] + Seq::<Seq<OpenerModel>>::empty() =~= seq![s]);
    } else {
        assert(targets.skip(1)[k - 1] == targets[k]);
        assert forall|j: int| 0 <= j < targets.skip(1).len() && j != k - 1
            implies resolve(rules, catalog, (#[trigger] targets.skip(1)[j]).0@,
                targets.skip(1)[j].1@) is None by {
            assert(targets.skip(1)[j] == targets[j + 1]);
        }
        lemma_matched_sets_one(rules, catalog, targets.skip(1), k - 1, s);
        assert(resolve(rules, catalog, targets[0].0@, targets[0].1@) is None);
    }
}

/// Whenever some target of a batch resolves to `s`, `s` stands among the
/// matched sets.
proof fn lemma_matched_sets_member<M: MimeMatcher, N: NameMatcher>(
    rules: Seq<OpenRule<M, N>>,
    catalog: Seq<Group>,
    targets: Seq<(String, String)>,
    k: int,
    s: Seq<OpenerModel>,
)
    requires
        0 <= k < targets.len(),
        resolve(rules, catalog, targets[k].0@, targets[k].1@) == Some(s),
    ensures
        exists|m: int| 0 <= m < matched_sets(rules, catalog, targets).len()
            && #[trigger] matched_sets(rules, catalog, targets)[m] == s,
    decreases k,
{
    let gs = matched_sets(rules, catalog, targets);
    if k == 0 {
        assert(gs[0] == s);
    } else {
        lemma_matched_sets_member(rules, catalog, targets.skip(1), k - 1, s);
        assert(targets.skip(1)[k - 1] == targets[k]);
        let m = choose|m: int| 0 <= m < matched_sets(rules, catalog, targets.skip(1)).len()
            && #[trigger] matched_sets(rules, catalog, targets.skip(1))[m] == s;
        match resolve(rules, catalog, targets[0].0@, targets[0].1@) {
            Some(s0) => {
                assert(gs[m + 1] == s);
            },
            None => {
                assert(gs[m] == s);
            },
        }
    }
}

/// When two targets of a batch resolve to sets with no identity in
/// common, the batch's common set is empty.
pub proof fn lemma_common_disjoint<M: MimeMatcher, N: NameMatcher>(
    rules: Seq<OpenRule<M, N>>,
    catalog: Seq<Group>,
    targets: Seq<(String, String)>,
    a: int,
    b: int,
    sa: Seq<OpenerModel>,
    sb: Seq<OpenerModel>,
)
    requires
        0 <= a < targets.len(),
        0 <= b < targets.len(),
        a != b,
        resolve(rules, catalog, targets[a].0@, targets[a].1@) == Some(sa),
        resolve(rules, catalog, targets[b].0@, targets[b].1@) == Some(sb),
        forall|id: (Seq<char>, Seq<Seq<char>>)| !(#[trigger] has_id(sa, id) && has_id(sb, id)),
    ensures
        common(rules, catalog, targets) == Seq::<OpenerModel>::empty(),
{
    let gs = matched_sets(rules, catalog, targets);
    lemma_matched_sets_member(rules, catalog, targets, a, sa);
    lemma_matched_sets_member(rules, catalog, targets, b, sb);
    let ma = choose|m: int| 0 <= m < gs.len() && #[trigger] gs[m] == sa;
    let mb = choose|m: int| 0 <= m < gs.len() && #[trigger] gs[m] == sb;
    let cand = dedup(concat_all(gs));
    assert forall|i: int| 0 <= i < cand.len()
        implies !common_pred(gs)(#[trigger] cand[i]) by {
        if common_pred(gs)(cand[i]) {
            assert(has_id(gs[ma], opener_id(cand[i])));
            assert(has_id(gs[mb], opener_id(cand[i])));
            assert(has_id(sa, opener_id(cand[i])) && has_id(sb, opener_id(cand[i])));
        }
    }
    lemma_filter_none(cand, common_pred(gs));
}

} // verus!
