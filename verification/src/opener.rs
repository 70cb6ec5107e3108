//! Openers, their identity, and deduplication by identity.

use vstd::prelude::*;
use crate::text::str_eq;

verus! {

/// A configured external program able to handle a file: an invocation
/// command with its fixed argument list, a human-readable label, and a
/// flag saying whether the program must run to completion in the
/// foreground before control returns.
pub struct Opener {
    pub cmd: String,
    pub args: Vec<String>,
    pub desc: String,
    pub block: bool,
}

/// The mathematical value of an [`Opener`]: the same four attributes,
/// with every string read as its sequence of characters.
#[verifier::ext_equal]
pub ghost struct OpenerModel {
    pub cmd: Seq<char>,
    pub args: Seq<Seq<char>>,
    pub desc: Seq<char>,
    pub block: bool,
}

impl DeepView for Opener {
    type V = OpenerModel;

    open spec fn deep_view(&self) -> OpenerModel {
        OpenerModel {
            cmd: self.cmd@,
            args: self.args.deep_view(),
            desc: self.desc@,
            block: self.block,
        }
    }
}

/// The identity of an opener: its command together with its argument
/// list.  The label and the blocking flag take no part in it; the
/// catalog and every resolved set deduplicate by this identity alone.
pub open spec fn opener_id(o: OpenerModel) -> (Seq<char>, Seq<Seq<char>>) {
    (o.cmd, o.args)
}

/// Whether some entry of `s` has the identity `id`.
pub open spec fn has_id(s: Seq<OpenerModel>, id: (Seq<char>, Seq<Seq<char>>)) -> bool {
    exists|i: int| 0 <= i < s.len() && opener_id(s[i]) == id
}

/// No two entries of `s` share an identity.
pub open spec fn dup_free(s: Seq<OpenerModel>) -> bool {
    forall|i: int, j: int|
        0 <= i < j < s.len() ==> opener_id(s[i]) != opener_id(s[j])
}

/// `s` with every entry whose identity occurred earlier dropped: the
/// first occurrence of each identity wins and keeps its position.
pub open spec fn dedup(s: Seq<OpenerModel>) -> Seq<OpenerModel>
    decreases s.len(),
{
    if s.len() == 0 {
        Seq::empty()
    } else if has_id(s.drop_last(), opener_id(s.last())) {
        dedup(s.drop_last())
    } else {
        dedup(s.drop_last()).push(s.last())
    }
}

/// An identity occurs in `a + b` exactly when it occurs in one of the two.
pub proof fn lemma_has_id_concat(a: Seq<OpenerModel>, b: Seq<OpenerModel>, id: (Seq<char>, Seq<Seq<char>>))
    ensures
        has_id(a + b, id) <==> (has_id(a, id) || has_id(b, id)),
{
    if has_id(a, id) {
        let i = choose|i: int| 0 <= i < a.len() && opener_id(a[i]) == id;
        assert(opener_id((a + b)[i]) == id);
    }
    if has_id(b, id) {
        let i = choose|i: int| 0 <= i < b.len() && opener_id(b[i]) == id;
        assert(opener_id((a + b)[a.len() + i]) == id);
    }
    if has_id(a + b, id) {
        let i = choose|i: int| 0 <= i < (a + b).len() && opener_id((a + b)[i]) == id;
        if i < a.len() {
            assert(opener_id(a[i]) == id);
        } else {
            assert(opener_id(b[i - a.len()]) == id);
        }
    }
}

/// Deduplication keeps exactly the identities that were there.
pub proof fn lemma_dedup_same_ids(s: Seq<OpenerModel>)
    ensures
        forall|id: (Seq<char>, Seq<Seq<char>>)| #[trigger] has_id(dedup(s), id) <==> has_id(s, id),
    decreases s.len(),
{
    if s.len() > 0 {
        lemma_dedup_same_ids(s.drop_last());
        assert forall|id: (Seq<char>, Seq<Seq<char>>)| #[trigger] has_id(dedup(s), id) <==> has_id(s, id) by {
            let last_id = opener_id(s.last());
            if has_id(s, id) {
                let i = choose|i: int| 0 <= i < s.len() && opener_id(s[i]) == id;
                if i < s.len() - 1 {
                    assert(opener_id(s.drop_last()[i]) == id);
                    assert(has_id(s.drop_last(), id));
                    assert(has_id(dedup(s.drop_last()), id));
                    if !has_id(s.drop_last(), last_id) {
                        let j = choose|j: int| 0 <= j < dedup(s.drop_last()).len()
                            && opener_id(dedup(s.drop_last())[j]) == id;
                        assert(opener_id(dedup(s)[j]) == id);
                    }
                } else {
                    // id is the identity of the last entry
                    if has_id(s.drop_last(), last_id) {
                        assert(has_id(dedup(s.drop_last()), id));
                    } else {
                        assert(opener_id(dedup(s).last()) == id);
                    }
                }
            }
            if has_id(dedup(s), id) {
                let i = choose|i: int| 0 <= i < dedup(s).len() && opener_id(dedup(s)[i]) == id;
                if has_id(s.drop_last(), last_id) {
                    assert(opener_id(dedup(s.drop_last())[i]) == id);
                    assert(has_id(dedup(s.drop_last()), id));
                    assert(has_id(s.drop_last(), id));
                    let j = choose|j: int| 0 <= j < s.drop_last().len() && opener_id(s.drop_last()[j]) == id;
                    assert(opener_id(s[j]) == id);
                } else {
                    if i < dedup(s).len() - 1 {
                        assert(opener_id(dedup(s.drop_last())[i]) == id);
                        assert(has_id(dedup(s.drop_last()), id));
                        assert(has_id(s.drop_last(), id));
                        let j = choose|j: int| 0 <= j < s.drop_last().len() && opener_id(s.drop_last()[j]) == id;
                        assert(opener_id(s[j]) == id);
                    } else {
                        assert(opener_id(s.last()) == id);
                    }
                }
            }
        }
    }
}

/// Deduplication leaves no two entries with one identity.
pub proof fn lemma_dedup_dup_free(s: Seq<OpenerModel>)
    ensures
        dup_free(dedup(s)),
    decreases s.len(),
{
    if s.len() > 0 {
        lemma_dedup_dup_free(s.drop_last());
        lemma_dedup_same_ids(s.drop_last());
        if !has_id(s.drop_last(), opener_id(s.last())) {
            let d = dedup(s.drop_last()).push(s.last());
            assert forall|i: int, j: int| 0 <= i < j < d.len()
                implies opener_id(d[i]) != opener_id(d[j]) by {
                if j == d.len() - 1 {
                    assert(opener_id(d[i]) == opener_id(dedup(s.drop_last())[i]));
                    if opener_id(d[i]) == opener_id(s.last()) {
                        assert(has_id(dedup(s.drop_last()), opener_id(s.last())));
                    }
                }
            }
        }
    }
}

/// On a sequence already free of duplicate identities, deduplication
/// changes nothing.
pub proof fn lemma_dedup_of_dup_free(s: Seq<OpenerModel>)
    requires
        dup_free(s),
    ensures
        dedup(s) == s,
    decreases s.len(),
{
    if s.len() == 0 {
        assert(dedup(s) =~= s);
    } else {
        assert(dup_free(s.drop_last()));
        lemma_dedup_of_dup_free(s.drop_last());
        if has_id(s.drop_last(), opener_id(s.last())) {
            let i = choose|i: int| 0 <= i < s.drop_last().len() && opener_id(s.drop_last()[i]) == opener_id(s.last());
            assert(opener_id(s[i]) == opener_id(s[s.len() - 1]));
            assert(false);
        }
        assert(dedup(s) =~= s);
    }
}

/// Deduplicating twice is the same as deduplicating once.
pub proof fn lemma_dedup_idempotent(s: Seq<OpenerModel>)
    ensures
        dedup(dedup(s)) == dedup(s),
{
    lemma_dedup_dup_free(s);
    lemma_dedup_of_dup_free(dedup(s));
}

/// Appending one entry extends a deduplication in the expected way.
pub proof fn lemma_dedup_push(s: Seq<OpenerModel>, o: OpenerModel)
    ensures
        dedup(s.push(o)) == if has_id(s, opener_id(o)) {
            dedup(s)
        } else {
            dedup(s).push(o)
        },
{
    assert(s.push(o).drop_last() =~= s);
    assert(s.push(o).last() == o);
}

/// Deduplicating after an already deduplicated prefix is the same as
/// deduplicating the whole concatenation at once.
pub proof fn lemma_dedup_concat_left(a: Seq<OpenerModel>, b: Seq<OpenerModel>)
    ensures
        dedup(dedup(a) + b) == dedup(a + b),
    decreases b.len(),
{
    if b.len() == 0 {
        assert(dedup(a) + b =~= dedup(a));
        assert(a + b =~= a);
        lemma_dedup_idempotent(a);
    } else {
        lemma_dedup_concat_left(a, b.drop_last());
        assert((dedup(a) + b).drop_last() =~= dedup(a) + b.drop_last());
        assert((a + b).drop_last() =~= a + b.drop_last());
        assert((dedup(a) + b).last() == b.last());
        assert((a + b).last() == b.last());
        lemma_dedup_same_ids(a);
        lemma_has_id_concat(dedup(a), b.drop_last(), opener_id(b.last()));
        lemma_has_id_concat(a, b.drop_last(), opener_id(b.last()));
    }
}

/// A tail whose identities are all present already adds nothing.
pub proof fn lemma_dedup_absorb(a: Seq<OpenerModel>, b: Seq<OpenerModel>)
    requires
        forall|id: (Seq<char>, Seq<Seq<char>>)| #[trigger] has_id(b, id) ==> has_id(a, id),
    ensures
        dedup(a + b) == dedup(a),
    decreases b.len(),
{
    if b.len() == 0 {
        assert(a + b =~= a);
    } else {
        assert forall|id: (Seq<char>, Seq<Seq<char>>)| #[trigger] has_id(b.drop_last(), id)
            implies has_id(a, id) by {
            let i = choose|i: int| 0 <= i < b.drop_last().len() && opener_id(b.drop_last()[i]) == id;
            assert(opener_id(b[i]) == id);
            assert(has_id(b, id));
        }
        lemma_dedup_absorb(a, b.drop_last());
        assert((a + b).drop_last() =~= a + b.drop_last());
        assert((a + b).last() == b.last());
        assert(opener_id(b[b.len() - 1]) == opener_id(b.last()));
        assert(has_id(b, opener_id(b.last())));
        lemma_has_id_concat(a, b.drop_last(), opener_id(b.last()));
    }
}

impl Clone for Opener {
    /// Cloning keeps the opener's value: the clone has the same model.
    fn clone(&self) -> (r: Self)
        ensures
            r.deep_view() == self.deep_view(),
    {
        let r = Opener {
            cmd: self.cmd.clone(),
            args: clone_strings(&self.args),
            desc: self.desc.clone(),
            block: self.block,
        };
        proof {
            assert(r.deep_view() =~~= self.deep_view());
        }
        r
    }
}

/// Copies a list of strings, keeping every value.
fn clone_strings(v: &Vec<String>) -> (r: Vec<String>)
    ensures
        r@ == v@,
{
    let mut r: Vec<String> = Vec::new();
    let mut i: usize = 0;
    while i < v.len()
        invariant
            i <= v@.len(),
            r@ == v@.take(i as int),
        decreases v@.len() - i,
    {
        r.push(v[i].clone());
        proof {
            assert(r@ =~= v@.take(i as int + 1));
        }
        i += 1;
    }
    proof {
        assert(v@.take(v@.len() as int) =~= v@);
    }
    r
}

/// Decides whether two openers share their identity.
pub fn same_identity(a: &Opener, b: &Opener) -> (r: bool)
    ensures
        r == (opener_id(a.deep_view()) == opener_id(b.deep_view())),
{
    proof {
        assert(a.args.deep_view().len() == a.args@.len());
        assert(b.args.deep_view().len() == b.args@.len());
    }
    if !str_eq(a.cmd.as_str(), b.cmd.as_str()) {
        return false;
    }
    if a.args.len() != b.args.len() {
        return false;
    }
    let mut i: usize = 0;
    while i < a.args.len()
        invariant
            i <= a.args@.len(),
            a.args@.len() == b.args@.len(),
            a.cmd@ == b.cmd@,
            forall|k: int| 0 <= k < i ==> a.args@[k]@ == b.args@[k]@,
        decreases a.args@.len() - i,
    {
        if !str_eq(a.args[i].as_str(), b.args[i].as_str()) {
            proof {
                assert(a.args.deep_view()[i as int] == a.args@[i as int]@);
                assert(b.args.deep_view()[i as int] == b.args@[i as int]@);
            }
            return false;
        }
        i += 1;
    }
    proof {
        assert(a.args.deep_view() =~~= b.args.deep_view());
    }
    true
}

/// Whether `v` already holds an opener with `o`'s identity.
pub fn contains_id(v: &Vec<Opener>, o: &Opener) -> (r: bool)
    ensures
        r == has_id(v.deep_view(), opener_id(o.deep_view())),
{
    proof {
        assert(v.deep_view().len() == v@.len());
    }
    let mut i: usize = 0;
    while i < v.len()
        invariant
            i <= v@.len(),
            v.deep_view().len() == v@.len(),
            forall|k: int| 0 <= k < i ==> opener_id(#[trigger] v.deep_view()[k]) != opener_id(o.deep_view()),
        decreases v@.len() - i,
    {
        if same_identity(&v[i], o) {
            proof {
                assert(v.deep_view()[i as int] == v@[i as int].deep_view());
            }
            return true;
        }
        proof {
            assert(v.deep_view()[i as int] == v@[i as int].deep_view());
        }
        i += 1;
    }
    false
}

/// Appends to `acc` the entries of `g` whose identity is not yet there,
/// in order: the result is the deduplication of the concatenation.
pub fn append_unique(acc: &mut Vec<Opener>, g: &Vec<Opener>)
    requires
        dup_free(old(acc).deep_view()),
    ensures
        final(acc).deep_view() == dedup(old(acc).deep_view() + g.deep_view()),
        dup_free(final(acc).deep_view()),
{
    proof {
        lemma_dedup_of_dup_free(old(acc).deep_view());
        assert(old(acc).deep_view() + g.deep_view().take(0) =~= old(acc).deep_view());
        assert(g.deep_view().len() == g@.len());
    }
    let mut j: usize = 0;
    while j < g.len()
        invariant
            j <= g@.len(),
            g.deep_view().len() == g@.len(),
            acc.deep_view() == dedup(old(acc).deep_view() + g.deep_view().take(j as int)),
        decreases g@.len() - j,
    {
        let ghost pre = old(acc).deep_view() + g.deep_view().take(j as int);
        proof {
            lemma_dedup_dup_free(pre);
            lemma_dedup_same_ids(pre);
            assert(g.deep_view()[j as int] == g@[j as int].deep_view());
            lemma_dedup_push(pre, g.deep_view()[j as int]);
            assert(pre.push(g.deep_view()[j as int])
                =~= old(acc).deep_view() + g.deep_view().take(j as int + 1));
        }
        if !contains_id(acc, &g[j]) {
            let ghost before = acc.deep_view();
            acc.push(g[j].clone());
            proof {
                assert(acc.deep_view() =~= before.push(g@[j as int].deep_view()));
            }
        }
        j += 1;
    }
    proof {
        assert(g.deep_view().take(g@.len() as int) =~= g.deep_view());
        lemma_dedup_dup_free(old(acc).deep_view() + g.deep_view());
    }
}

} // verus!
