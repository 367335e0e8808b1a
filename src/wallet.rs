//! Wallet states, the application of a block delta, and the verification of
//! one transition or of a whole chain of them.

use crate::delta::{compute_next_proof, proof_of, BlockDelta};
use crate::note::{cm_from_rho, cm_of, commitments_of, nf_from_rho, nf_of, NoteCommitment};
use crate::secrets::{
    contains_string, has_key, inserted, keys_unique, views_of, without_keys, SecretMap,
};
use rand::RngCore;
use vstd::prelude::*;

verus! {

/// The wallet's recorded state at one height.
#[derive(Clone, Debug)]
pub struct WalletState {
    pub anchor_height: u64,
    pub notes: Vec<NoteCommitment>,
    pub proof: String,
    pub secrets: SecretMap,
}

/// A delta whose height does not follow the state's anchor height.
#[derive(Clone, Copy, Debug, PartialEq, Eq, Structural)]
pub struct SequenceError {
    /// The delta's height.
    pub got: u64,
    /// The anchor height of the state it was applied to.
    pub anchor_height: u64,
}

/// The commitment of the first entry of `s` whose secret reveals `nf`.
pub open spec fn owner_of(s: Seq<(Seq<char>, Seq<u8>)>, nf: Seq<char>) -> Option<Seq<char>>
    decreases s.len(),
{
    if s.len() == 0 {
        None
    } else if nf_of(s[0].1) == nf {
        Some(s[0].0)
    } else {
        owner_of(s.drop_first(), nf)
    }
}

/// The commitments that the nullifiers `nfs` spend, one for each nullifier
/// that some secret of `s` reveals, in the order of `nfs`.
pub open spec fn spent_of(s: Seq<(Seq<char>, Seq<u8>)>, nfs: Seq<Seq<char>>) -> Seq<Seq<char>>
    decreases nfs.len(),
{
    if nfs.len() == 0 {
        Seq::empty()
    } else {
        let r = spent_of(s, nfs.drop_last());
        match owner_of(s, nfs.last()) {
            Some(k) => r.push(k),
            None => r,
        }
    }
}

/// The commitments of `cms` that are not among `spent`, in order.
pub open spec fn unspent(cms: Seq<Seq<char>>, spent: Seq<Seq<char>>) -> Seq<Seq<char>> {
    cms.filter(|c: Seq<char>| !spent.contains(c))
}

/// The note set after `d` is applied to `prev`.
pub open spec fn next_notes_of(prev: WalletState, d: BlockDelta) -> Seq<Seq<char>> {
    unspent(commitments_of(prev.notes@), spent_of(prev.secrets@, views_of(d.nullifiers@)))
        + commitments_of(d.new_notes@)
}

/// `next` is the state that applying `d` to `prev` yields.
pub open spec fn applied(prev: WalletState, d: BlockDelta, next: WalletState) -> bool {
    &&& next.anchor_height == d.height
    &&& commitments_of(next.notes@) == next_notes_of(prev, d)
    &&& next.proof@ == proof_of(prev.proof@, d, next_notes_of(prev, d))
    &&& next.secrets@ == without_keys(
        prev.secrets@,
        spent_of(prev.secrets@, views_of(d.nullifiers@)),
    )
}

/// Every commitment with a secret is among the state's notes.
pub open spec fn secrets_in_notes(s: WalletState) -> bool {
    forall|i: int|
        0 <= i < s.secrets@.len() ==> commitments_of(s.notes@).contains(#[trigger] s.secrets@[i].0)
}

/// `d` follows `prev` in height.
pub open spec fn in_sequence(prev: WalletState, d: BlockDelta) -> bool {
    d.height as int == prev.anchor_height as int + 1
}

/// `next` is consistent with `prev` and `d`: the heights follow each other
/// and `next.proof` is the digest recomputed from `prev.proof`, `d` and the
/// notes that `next` claims.
pub open spec fn transition_ok(prev: WalletState, next: WalletState, d: BlockDelta) -> bool {
    &&& in_sequence(prev, d)
    &&& d.height == next.anchor_height
    &&& next.proof@ == proof_of(prev.proof@, d, commitments_of(next.notes@))
}

/// Every adjacent pair of `states` is joined by the delta at its index.
pub open spec fn chain_ok(states: Seq<WalletState>, deltas: Seq<BlockDelta>) -> bool {
    &&& states.len() == deltas.len() + 1
    &&& forall|i: int|
        0 <= i < deltas.len() ==> #[trigger] transition_ok(states[i], states[i + 1], deltas[i])
}

fn owner_of_nullifier(secrets: &SecretMap, nf: &String) -> (r: Option<String>)
    ensures
        match r {
            Some(k) => owner_of(secrets@, nf@) == Some(k@),
            None => owner_of(secrets@, nf@) is None,
        },
{
    let ghost s = secrets@;
    assert(s.subrange(0, s.len() as int) =~= s);
    let mut i: usize = 0;
    while i < secrets.len()
        invariant
            i <= s.len(),
            s == secrets@,
            owner_of(s.subrange(i as int, s.len() as int), nf@) == owner_of(s, nf@),
        decreases s.len() - i,
    {
        let ghost rest = s.subrange(i as int, s.len() as int);
        assert(rest[0] == s[i as int]);
        assert(rest.drop_first() =~= s.subrange(i + 1, s.len() as int));
        proof {
            secrets.lemma_secret_len(i as int);
        }
        let derived = nf_from_rho(secrets.secret_at(i));
        if derived == *nf {
            return Some(secrets.key_at(i).clone());
        }
        i = i + 1;
    }
    assert(s.subrange(i as int, s.len() as int) =~= Seq::<(Seq<char>, Seq<u8>)>::empty());
    None
}

fn spent_commitments(secrets: &SecretMap, nullifiers: &Vec<String>) -> (r: Vec<String>)
    ensures
        views_of(r@) == spent_of(secrets@, views_of(nullifiers@)),
{
    let ghost nfs = views_of(nullifiers@);
    let mut spent: Vec<String> = Vec::new();
    let mut i: usize = 0;
    while i < nullifiers.len()
        invariant
            i <= nullifiers@.len(),
            nfs == views_of(nullifiers@),
            views_of(spent@) == spent_of(secrets@, nfs.take(i as int)),
        decreases nullifiers.len() - i,
    {
        let ghost cur = nfs.take(i + 1);
        assert(cur.drop_last() =~= nfs.take(i as int));
        assert(cur.last() == nullifiers@[i as int]@);
        let ghost before = views_of(spent@);
        match owner_of_nullifier(secrets, &nullifiers[i]) {
            Some(k) => {
                spent.push(k);
                assert(views_of(spent@) =~= before.push(k@));
            },
            None => {},
        }
        i = i + 1;
    }
    assert(nfs.take(i as int) =~= nfs);
    spent
}

fn keep_unspent(notes: &Vec<NoteCommitment>, spent: &Vec<String>) -> (r: Vec<NoteCommitment>)
    ensures
        commitments_of(r@) == unspent(commitments_of(notes@), views_of(spent@)),
{
    let ghost cms = commitments_of(notes@);
    let ghost sv = views_of(spent@);
    let mut out: Vec<NoteCommitment> = Vec::new();
    let mut i: usize = 0;
    while i < notes.len()
        invariant
            i <= notes@.len(),
            cms == commitments_of(notes@),
            sv == views_of(spent@),
            commitments_of(out@) == unspent(cms.take(i as int), sv),
        decreases notes.len() - i,
    {
        proof {
            reveal(Seq::filter);
        }
        let ghost cur = cms.take(i + 1);
        let ghost before = commitments_of(out@);
        assert(cur.len() == i + 1);
        assert(cur.drop_last() =~= cms.take(i as int));
        assert(cur.last() == notes@[i as int]@);
        let found = contains_string(spent, &notes[i].commitment);
        assert(unspent(cur, sv) == if found {
            unspent(cms.take(i as int), sv)
        } else {
            unspent(cms.take(i as int), sv).push(cur.last())
        });
        if !found {
            out.push(NoteCommitment { commitment: notes[i].commitment.clone() });
            assert(commitments_of(out@) =~= before.push(cur.last()));
        }
        i = i + 1;
    }
    assert(cms.take(i as int) =~= cms);
    out
}

fn append_notes(out: &mut Vec<NoteCommitment>, extra: &Vec<NoteCommitment>)
    ensures
        commitments_of(final(out)@) == commitments_of(old(out)@) + commitments_of(extra@),
{
    let ghost start = commitments_of(out@);
    let mut i: usize = 0;
    while i < extra.len()
        invariant
            i <= extra@.len(),
            commitments_of(out@) == start + commitments_of(extra@).take(i as int),
        decreases extra.len() - i,
    {
        let ghost before = commitments_of(out@);
        out.push(NoteCommitment { commitment: extra[i].commitment.clone() });
        assert(commitments_of(out@) =~= before.push(extra@[i as int]@));
        i = i + 1;
        assert(commitments_of(out@) =~= start + commitments_of(extra@).take(i as int));
    }
    assert(commitments_of(extra@).take(i as int) =~= commitments_of(extra@));
}

/// Applies one block delta: the notes whose secrets reveal one of the
/// delta's nullifiers leave the note set and the secret store, the delta's
/// new notes join the note set, and the digest moves on. A delta whose height
/// does not follow the anchor height is refused.
pub fn apply_block(prev: &WalletState, delta: &BlockDelta) -> (r: Result<WalletState, SequenceError>)
    ensures
        r is Ok <==> in_sequence(*prev, *delta),
        r matches Ok(next) ==> applied(*prev, *delta, next),
        r matches Ok(next) ==> (keys_unique(prev.secrets@) ==> keys_unique(next.secrets@)),
        r matches Err(e) ==> e.got == delta.height && e.anchor_height == prev.anchor_height,
{
    if prev.anchor_height == u64::MAX || delta.height != prev.anchor_height + 1 {
        return Err(SequenceError { got: delta.height, anchor_height: prev.anchor_height });
    }
    let spent = spent_commitments(&prev.secrets, &delta.nullifiers);
    let mut next_notes = keep_unspent(&prev.notes, &spent);
    append_notes(&mut next_notes, &delta.new_notes);
    let next_secrets = prev.secrets.without(&spent);
    let next_proof = compute_next_proof(prev.proof.as_str(), delta, next_notes.as_slice());
    Ok(WalletState {
        anchor_height: delta.height,
        notes: next_notes,
        proof: next_proof,
        secrets: next_secrets,
    })
}

/// Checks that `next` follows `prev` through `delta`: the heights follow
/// each other and `next.proof` equals the digest recomputed from
/// `prev.proof`, `delta` and the notes that `next` holds. The note set of
/// `next` is taken as given, not rederived from `prev`.
pub fn verify_transition(prev: &WalletState, next: &WalletState, delta: &BlockDelta) -> (r: bool)
    ensures
        r == transition_ok(*prev, *next, *delta),
{
    if prev.anchor_height == u64::MAX || delta.height != prev.anchor_height + 1
        || delta.height != next.anchor_height {
        return false;
    }
    let expected = compute_next_proof(prev.proof.as_str(), delta, next.notes.as_slice());
    expected == next.proof
}

/// Checks a chain of snapshots, genesis first, against the deltas between
/// them: one more state than deltas, and every transition verifies.
pub fn verify_chain(states: &[WalletState], deltas: &[BlockDelta]) -> (r: bool)
    ensures
        r == chain_ok(states@, deltas@),
{
    if states.len() == 0 || states.len() - 1 != deltas.len() {
        return false;
    }
    let mut i: usize = 0;
    while i < deltas.len()
        invariant
            i <= deltas@.len(),
            states@.len() == deltas@.len() + 1,
            forall|j: int|
                0 <= j < i ==> #[trigger] transition_ok(states@[j], states@[j + 1], deltas@[j]),
        decreases deltas.len() - i,
    {
        if !verify_transition(&states[i], &states[i + 1], &deltas[i]) {
            return false;
        }
        i = i + 1;
    }
    true
}

/// Relies on rand's `OsRng` through `RngCore::fill_bytes`: it fills the
/// buffer from the operating system's secure generator. Nothing is promised
/// of the bytes.
#[verifier::external_body]
fn random_rho() -> (r: [u8; 32]) {
    let mut rho = [0u8; 32];
    rand::rngs::OsRng.fill_bytes(&mut rho);
    rho
}

/// Records a note opened by `rho` as owned: its commitment goes into the
/// secret store with `rho` and is returned. The note set is left as it is.
pub fn add_owned_note(state: &mut WalletState, rho: [u8; 32]) -> (r: NoteCommitment)
    ensures
        r@ == cm_of(rho@),
        inserted(old(state).secrets@, r@, rho@, final(state).secrets@),
        keys_unique(old(state).secrets@) ==> keys_unique(final(state).secrets@),
        final(state).anchor_height == old(state).anchor_height,
        final(state).notes@ == old(state).notes@,
        final(state).proof == old(state).proof,
{
    let cm = cm_from_rho(&rho);
    state.secrets.insert(cm.clone(), rho);
    NoteCommitment { commitment: cm }
}

/// Draws a fresh secret from the system's secure generator and records the
/// note it opens as owned, as `add_owned_note` does.
pub fn new_owned_note(state: &mut WalletState) -> (r: NoteCommitment)
    ensures
        exists|rho: Seq<u8>|
            rho.len() == 32 && r@ == cm_of(rho) && #[trigger] inserted(
                old(state).secrets@,
                r@,
                rho,
                final(state).secrets@,
            ),
        keys_unique(old(state).secrets@) ==> keys_unique(final(state).secrets@),
        final(state).anchor_height == old(state).anchor_height,
        final(state).notes@ == old(state).notes@,
        final(state).proof == old(state).proof,
{
    let rho = random_rho();
    add_owned_note(state, rho)
}

proof fn lemma_owner_first(s: Seq<(Seq<char>, Seq<u8>)>, i: int)
    requires
        0 <= i < s.len(),
        forall|j: int| 0 <= j < i ==> nf_of(#[trigger] s[j].1) != nf_of(s[i].1),
    ensures
        owner_of(s, nf_of(s[i].1)) == Some(s[i].0),
    decreases i,
{
    if i > 0 {
        let t = s.drop_first();
        assert(nf_of(s[0].1) != nf_of(s[i].1));
        assert(t[i - 1] == s[i]);
        assert forall|j: int| 0 <= j < i - 1 implies nf_of(#[trigger] t[j].1) != nf_of(t[i - 1].1) by {
            assert(t[j] == s[j + 1]);
        }
        lemma_owner_first(t, i - 1);
    }
}

proof fn lemma_owner_none(s: Seq<(Seq<char>, Seq<u8>)>, nf: Seq<char>)
    requires
        forall|j: int| 0 <= j < s.len() ==> nf_of(#[trigger] s[j].1) != nf,
    ensures
        owner_of(s, nf) is None,
    decreases s.len(),
{
    if s.len() > 0 {
        assert(nf_of(s[0].1) != nf);
        let t = s.drop_first();
        assert forall|j: int| 0 <= j < t.len() implies nf_of(#[trigger] t[j].1) != nf by {
            assert(t[j] == s[j + 1]);
        }
        lemma_owner_none(t, nf);
    }
}

proof fn lemma_spent_contains(s: Seq<(Seq<char>, Seq<u8>)>, nfs: Seq<Seq<char>>, n: int, k: Seq<char>)
    requires
        0 <= n < nfs.len(),
        owner_of(s, nfs[n]) == Some(k),
    ensures
        spent_of(s, nfs).contains(k),
    decreases nfs.len(),
{
    let r = spent_of(s, nfs.drop_last());
    if n == nfs.len() - 1 {
        assert(spent_of(s, nfs) == r.push(k));
        assert(r.push(k)[r.len() as int] == k);
    } else {
        assert(nfs.drop_last()[n] == nfs[n]);
        lemma_spent_contains(s, nfs.drop_last(), n, k);
        let i = choose|i: int| 0 <= i < r.len() && r[i] == k;
        match owner_of(s, nfs.last()) {
            Some(x) => {
                assert(r.push(x)[i] == k);
            },
            None => {},
        }
    }
}

/// The commitments spent by a concatenation of nullifier lists are those
/// spent by each list, in order.
pub proof fn lemma_spent_concat(s: Seq<(Seq<char>, Seq<u8>)>, a: Seq<Seq<char>>, b: Seq<Seq<char>>)
    ensures
        spent_of(s, a + b) == spent_of(s, a) + spent_of(s, b),
    decreases b.len(),
{
    if b.len() == 0 {
        assert(a + b =~= a);
        assert(spent_of(s, a) + spent_of(s, b) =~= spent_of(s, a));
    } else {
        assert((a + b).drop_last() =~= a + b.drop_last());
        assert((a + b).last() == b.last());
        lemma_spent_concat(s, a, b.drop_last());
        match owner_of(s, b.last()) {
            Some(k) => {
                assert(spent_of(s, a) + spent_of(s, b.drop_last()).push(k) =~= (spent_of(s, a)
                    + spent_of(s, b.drop_last())).push(k));
            },
            None => {},
        }
    }
}

/// A nullifier that no secret of the store reveals spends nothing: the
/// commitments spent by a list of nullifiers stay the same when such a
/// nullifier is added anywhere in it.
pub proof fn lemma_foreign_nullifier_ignored(
    s: Seq<(Seq<char>, Seq<u8>)>,
    a: Seq<Seq<char>>,
    nf: Seq<char>,
    b: Seq<Seq<char>>,
)
    requires
        forall|j: int| 0 <= j < s.len() ==> nf_of(#[trigger] s[j].1) != nf,
    ensures
        spent_of(s, a + seq![nf] + b) == spent_of(s, a + b),
{
    lemma_owner_none(s, nf);
    lemma_spent_concat(s, a + seq![nf], b);
    lemma_spent_concat(s, a, seq![nf]);
    lemma_spent_concat(s, a, b);
    assert(seq![nf].drop_last() =~= Seq::<Seq<char>>::empty());
    assert(seq![nf].last() == nf);
    assert(spent_of(s, Seq::<Seq<char>>::empty()) == Seq::<Seq<char>>::empty());
    assert(spent_of(s, seq![nf]) =~= Seq::<Seq<char>>::empty());
    assert(spent_of(s, a) + spent_of(s, seq![nf]) =~= spent_of(s, a));
}

proof fn lemma_spent_none(s: Seq<(Seq<char>, Seq<u8>)>, nfs: Seq<Seq<char>>)
    requires
        forall|n: int, j: int|
            0 <= n < nfs.len() && 0 <= j < s.len() ==> nf_of(#[trigger] s[j].1) != #[trigger] nfs[n],
    ensures
        spent_of(s, nfs) == Seq::<Seq<char>>::empty(),
    decreases nfs.len(),
{
    if nfs.len() > 0 {
        assert forall|j: int| 0 <= j < s.len() implies nf_of(#[trigger] s[j].1) != nfs.last() by {
            assert(nf_of(s[j].1) != nfs[nfs.len() - 1]);
        }
        lemma_owner_none(s, nfs.last());
        assert forall|n: int, j: int|
            0 <= n < nfs.drop_last().len() && 0 <= j < s.len() implies nf_of(
            #[trigger] s[j].1,
        ) != #[trigger] nfs.drop_last()[n] by {
            assert(nf_of(s[j].1) != nfs[n]);
        }
        lemma_spent_none(s, nfs.drop_last());
    }
}

proof fn lemma_filter_all<A>(x: Seq<A>, p: spec_fn(A) -> bool)
    requires
        forall|i: int| 0 <= i < x.len() ==> p(#[trigger] x[i]),
    ensures
        x.filter(p) == x,
    decreases x.len(),
{
    reveal(Seq::filter);
    if x.len() > 0 {
        lemma_filter_all(x.drop_last(), p);
        assert(x.drop_last().push(x.last()) =~= x);
    }
}

/// A delta none of whose nullifiers is revealed by a secret of the wallet
/// leaves the wallet's notes and secrets untouched: the new notes are added
/// after the existing ones, and the secret store is unchanged.
pub proof fn lemma_foreign_nullifiers_keep_notes(prev: WalletState, d: BlockDelta, next: WalletState)
    requires
        applied(prev, d, next),
        forall|n: int, j: int|
            0 <= n < d.nullifiers@.len() && 0 <= j < prev.secrets@.len() ==> nf_of(
                #[trigger] prev.secrets@[j].1,
            ) != #[trigger] d.nullifiers@[n]@,
    ensures
        commitments_of(next.notes@) == commitments_of(prev.notes@) + commitments_of(d.new_notes@),
        next.secrets@ == prev.secrets@,
{
    let s = prev.secrets@;
    let nfs = views_of(d.nullifiers@);
    assert forall|n: int, j: int|
        0 <= n < nfs.len() && 0 <= j < s.len() implies nf_of(#[trigger] s[j].1)
        != #[trigger] nfs[n] by {
        assert(nf_of(s[j].1) != d.nullifiers@[n]@);
    }
    lemma_spent_none(s, nfs);
    let empty = Seq::<Seq<char>>::empty();
    lemma_filter_all(commitments_of(prev.notes@), |c: Seq<char>| !empty.contains(c));
    lemma_filter_all(s, |e: (Seq<char>, Seq<u8>)| !empty.contains(e.0));
}

/// Spending an owned note: when a delta reveals the nullifier of the secret
/// in entry `i` of the store, that entry is the first whose secret reveals
/// it, and the delta does not bring the same commitment back as a new note,
/// the resulting state holds neither the note nor its secret.
pub proof fn lemma_spend_removes_note(prev: WalletState, d: BlockDelta, next: WalletState, i: int)
    requires
        applied(prev, d, next),
        0 <= i < prev.secrets@.len(),
        views_of(d.nullifiers@).contains(nf_of(prev.secrets@[i].1)),
        forall|j: int|
            0 <= j < i ==> nf_of(#[trigger] prev.secrets@[j].1) != nf_of(prev.secrets@[i].1),
        !commitments_of(d.new_notes@).contains(prev.secrets@[i].0),
    ensures
        !commitments_of(next.notes@).contains(prev.secrets@[i].0),
        !has_key(next.secrets@, prev.secrets@[i].0),
{
    let s = prev.secrets@;
    let k = s[i].0;
    let nfs = views_of(d.nullifiers@);
    let spent = spent_of(s, nfs);
    lemma_owner_first(s, i);
    let n = choose|n: int| 0 <= n < nfs.len() && nfs[n] == nf_of(s[i].1);
    lemma_spent_contains(s, nfs, n, k);
    let kept = unspent(commitments_of(prev.notes@), spent);
    if kept.contains(k) {
        let m = choose|m: int| 0 <= m < kept.len() && kept[m] == k;
        commitments_of(prev.notes@).lemma_filter_pred(|c: Seq<char>| !spent.contains(c), m);
    }
    let new = commitments_of(d.new_notes@);
    if (kept + new).contains(k) {
        let m = choose|m: int| 0 <= m < (kept + new).len() && (kept + new)[m] == k;
        if m < kept.len() {
            assert(kept[m] == k);
        } else {
            assert(new[m - kept.len()] == k);
        }
    }
    let rest = without_keys(s, spent);
    if has_key(rest, k) {
        let m = choose|m: int| 0 <= m < rest.len() && #[trigger] rest[m].0 == k;
        s.lemma_filter_pred(|e: (Seq<char>, Seq<u8>)| !spent.contains(e.0), m);
    }
}

/// Applying a delta keeps every commitment that has a secret among the notes.
pub proof fn lemma_apply_keeps_secrets_in_notes(prev: WalletState, d: BlockDelta, next: WalletState)
    requires
        applied(prev, d, next),
        secrets_in_notes(prev),
    ensures
        secrets_in_notes(next),
{
    let s = prev.secrets@;
    let spent = spent_of(s, views_of(d.nullifiers@));
    let cms = commitments_of(prev.notes@);
    let p = |c: Seq<char>| !spent.contains(c);
    let q = |e: (Seq<char>, Seq<u8>)| !spent.contains(e.0);
    let kept = unspent(cms, spent);
    let new = commitments_of(d.new_notes@);
    assert forall|i: int| 0 <= i < next.secrets@.len() implies commitments_of(next.notes@).contains(
        #[trigger] next.secrets@[i].0,
    ) by {
        let e = next.secrets@[i];
        s.lemma_filter_pred(q, i);
        assert(without_keys(s, spent).contains(e));
        s.lemma_filter_contains_rev(q, e);
        let j = choose|j: int| 0 <= j < s.len() && s[j] == e;
        assert(cms.contains(s[j].0));
        let m = choose|m: int| 0 <= m < cms.len() && cms[m] == e.0;
        cms.lemma_filter_contains(p, m);
        let n = choose|n: int| 0 <= n < kept.len() && kept[n] == e.0;
        assert((kept + new)[n] == e.0);
    }
}

/// Applying a delta yields a state that verifies against the state it came
/// from.
pub proof fn lemma_apply_then_verify(prev: WalletState, d: BlockDelta, next: WalletState)
    requires
        in_sequence(prev, d),
        applied(prev, d, next),
    ensures
        transition_ok(prev, next, d),
{
}

} // verus!
