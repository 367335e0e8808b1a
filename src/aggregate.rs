//! The wallet commitment: one order-independent digest of a set of notes.

use crate::digest::{digest_of, hash_bytes};
use crate::note::{commitments_of, NoteCommitment};
use crate::secrets::views_of;
use vstd::prelude::*;
use vstd::relations::{sorted_by, total_ordering};
use vstd::seq_lib::lemma_sorted_unique;
use vstd::utf8::encode_utf8;

verus! {

/// Lexicographic order of character strings, a proper prefix first.
pub open spec fn lex_le(a: Seq<char>, b: Seq<char>) -> bool
    decreases a.len(),
{
    if a.len() == 0 {
        true
    } else if b.len() == 0 {
        false
    } else if a[0] != b[0] {
        a[0] < b[0]
    } else {
        lex_le(a.drop_first(), b.drop_first())
    }
}

/// The order on commitments, as a relation.
pub open spec fn lex_order() -> spec_fn(Seq<char>, Seq<char>) -> bool {
    |a: Seq<char>, b: Seq<char>| lex_le(a, b)
}

/// The strings of `s` with `sep` between neighbours.
pub open spec fn join_with(s: Seq<Seq<char>>, sep: Seq<char>) -> Seq<char>
    decreases s.len(),
{
    if s.len() == 0 {
        Seq::empty()
    } else if s.len() == 1 {
        s[0]
    } else {
        join_with(s.drop_last(), sep) + sep + s.last()
    }
}

/// The digest of a note set: its commitments sorted, joined with `;`, hashed.
pub open spec fn aggregate_of(cms: Seq<Seq<char>>) -> Seq<char> {
    digest_of(encode_utf8(join_with(cms.sort_by(lex_order()), ";"@)))
}

proof fn lemma_lex_refl(a: Seq<char>)
    ensures
        lex_le(a, a),
    decreases a.len(),
{
    if a.len() > 0 {
        lemma_lex_refl(a.drop_first());
    }
}

proof fn lemma_lex_antisym(a: Seq<char>, b: Seq<char>)
    requires
        lex_le(a, b),
        lex_le(b, a),
    ensures
        a == b,
    decreases a.len(),
{
    if a.len() > 0 && b.len() > 0 && a[0] == b[0] {
        lemma_lex_antisym(a.drop_first(), b.drop_first());
        assert(a =~= seq![a[0]] + a.drop_first());
        assert(b =~= seq![b[0]] + b.drop_first());
    }
}

proof fn lemma_lex_trans(a: Seq<char>, b: Seq<char>, c: Seq<char>)
    requires
        lex_le(a, b),
        lex_le(b, c),
    ensures
        lex_le(a, c),
    decreases a.len(),
{
    if a.len() > 0 && b.len() > 0 && c.len() > 0 && a[0] == b[0] && b[0] == c[0] {
        lemma_lex_trans(a.drop_first(), b.drop_first(), c.drop_first());
    }
}

proof fn lemma_lex_total(a: Seq<char>, b: Seq<char>)
    ensures
        lex_le(a, b) || lex_le(b, a),
    decreases a.len(),
{
    if a.len() > 0 && b.len() > 0 && a[0] == b[0] {
        lemma_lex_total(a.drop_first(), b.drop_first());
    }
}

/// The order on commitments is a total order.
pub proof fn lemma_lex_total_ordering()
    ensures
        total_ordering(lex_order()),
{
    assert forall|a: Seq<char>| #[trigger] lex_order()(a, a) by {
        lemma_lex_refl(a);
    }
    assert forall|a: Seq<char>, b: Seq<char>|
        #[trigger] lex_order()(a, b) && #[trigger] lex_order()(b, a) implies a == b by {
        lemma_lex_antisym(a, b);
    }
    assert forall|a: Seq<char>, b: Seq<char>, c: Seq<char>|
        #[trigger] lex_order()(a, b) && #[trigger] lex_order()(b, c) implies lex_order()(
        a,
        c,
    ) by {
        lemma_lex_trans(a, b, c);
    }
    assert forall|a: Seq<char>, b: Seq<char>|
        #[trigger] lex_order()(a, b) || #[trigger] lex_order()(b, a) by {
        lemma_lex_total(a, b);
    }
}

/// A sequence sorted in the order on commitments is the sorted form of
/// every sequence with the same elements.
pub proof fn lemma_sorted_is_sort(sorted: Seq<Seq<char>>, cms: Seq<Seq<char>>)
    requires
        sorted_by(sorted, lex_order()),
        sorted.to_multiset() == cms.to_multiset(),
    ensures
        sorted == cms.sort_by(lex_order()),
{
    lemma_lex_total_ordering();
    cms.lemma_sort_by_ensures(lex_order());
    lemma_sorted_unique(sorted, cms.sort_by(lex_order()), lex_order());
}

/// The digest of a note set does not depend on the order of its notes: two
/// sequences of commitments with the same elements, counted with
/// multiplicity, aggregate to the same digest.
pub proof fn lemma_aggregate_order_independent(a: Seq<Seq<char>>, b: Seq<Seq<char>>)
    requires
        a.to_multiset() == b.to_multiset(),
    ensures
        aggregate_of(a) == aggregate_of(b),
{
    lemma_lex_total_ordering();
    a.lemma_sort_by_ensures(lex_order());
    lemma_sorted_is_sort(a.sort_by(lex_order()), b);
}

/// Relies on std's `slice::sort_unstable` on `String`: the result is a
/// permutation of the input in ascending order, and `String`'s order is that
/// of the UTF-8 bytes, which is the lexicographic order of the characters.
#[verifier::external_body]
fn sort_strings(v: &mut Vec<String>)
    ensures
        views_of(final(v)@).to_multiset() == views_of(old(v)@).to_multiset(),
        sorted_by(views_of(final(v)@), lex_order()),
{
    v.sort_unstable();
}

/// The strings of `v` joined with `;` between neighbours.
fn join_with_semicolons(v: &Vec<String>) -> (r: String)
    ensures
        r@ == join_with(views_of(v@), ";"@),
{
    let mut out = String::new();
    let mut i: usize = 0;
    while i < v.len()
        invariant
            i <= v@.len(),
            out@ == join_with(views_of(v@).take(i as int), ";"@),
        decreases v.len() - i,
    {
        let ghost cur = views_of(v@).take(i + 1);
        assert(cur.drop_last() =~= views_of(v@).take(i as int));
        if i > 0 {
            out.append(";");
        }
        out.append(v[i].as_str());
        i = i + 1;
        assert(i == 1 ==> views_of(v@).take(0) =~= Seq::<Seq<char>>::empty());
        assert(out@ =~= join_with(cur, ";"@));
    }
    assert(views_of(v@).take(i as int) =~= views_of(v@));
    out
}

/// The digest of a note set, independent of the order of the notes.
pub fn wallet_commitment(notes: &[NoteCommitment]) -> (r: String)
    ensures
        r@ == aggregate_of(commitments_of(notes@)),
        r@.len() == 64,
{
    let mut cms: Vec<String> = Vec::new();
    let mut i: usize = 0;
    while i < notes.len()
        invariant
            i <= notes@.len(),
            views_of(cms@) == commitments_of(notes@).take(i as int),
        decreases notes.len() - i,
    {
        let c = notes[i].commitment.clone();
        assert(c@ == commitments_of(notes@)[i as int]);
        let ghost before = views_of(cms@);
        cms.push(c);
        assert(views_of(cms@) =~= before.push(c@));
        i = i + 1;
        assert(views_of(cms@) =~= commitments_of(notes@).take(i as int));
    }
    assert(commitments_of(notes@).take(i as int) =~= commitments_of(notes@));
    let ghost unsorted = views_of(cms@);
    sort_strings(&mut cms);
    proof {
        lemma_sorted_is_sort(views_of(cms@), unsorted);
    }
    let joined = join_with_semicolons(&cms);
    hash_bytes(joined.as_str().as_bytes())
}

} // verus!
