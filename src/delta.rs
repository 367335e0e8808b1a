//! Block deltas, their canonical JSON encoding, and the chained digest that
//! stands in for a proof of a state transition.

use crate::aggregate::{
    aggregate_of, join_with, lemma_aggregate_order_independent, wallet_commitment,
};
use crate::digest::{digest_of, hash_bytes, hex_digit};
use crate::note::{commitments_of, NoteCommitment};
use crate::secrets::views_of;
use vstd::prelude::*;
use vstd::string::*;
use vstd::utf8::encode_utf8;

verus! {

/// One block's effect on the note set.
#[derive(Clone, Debug)]
pub struct BlockDelta {
    pub height: u64,
    pub new_notes: Vec<NoteCommitment>,
    pub nullifiers: Vec<String>,
}

/// How serde_json writes one character inside a JSON string literal: the
/// quote and the backslash are escaped, the five control characters with a
/// short escape use it, the other control characters below U+0020 become
/// `\u00XX` with lowercase hex digits, and every other character stands as
/// it is.
pub open spec fn json_escape(c: char) -> Seq<char> {
    if c == '"' {
        seq!['\\', '"']
    } else if c == '\\' {
        seq!['\\', '\\']
    } else if c == '\u{8}' {
        seq!['\\', 'b']
    } else if c == '\t' {
        seq!['\\', 't']
    } else if c == '\n' {
        seq!['\\', 'n']
    } else if c == '\u{c}' {
        seq!['\\', 'f']
    } else if c == '\r' {
        seq!['\\', 'r']
    } else if (c as u32) < 32 {
        seq!['\\', 'u', '0', '0', hex_digit((c as u8) / 16), hex_digit((c as u8) % 16)]
    } else {
        seq![c]
    }
}

/// The characters of `s`, each escaped as in a JSON string literal.
pub open spec fn json_escape_all(s: Seq<char>) -> Seq<char>
    decreases s.len(),
{
    if s.len() == 0 {
        Seq::empty()
    } else {
        json_escape_all(s.drop_last()) + json_escape(s.last())
    }
}

/// serde_json's compact encoding of a string as a JSON string literal.
pub open spec fn json_string_of(s: Seq<char>) -> Seq<char> {
    seq!['"'] + json_escape_all(s) + seq!['"']
}

/// The decimal digit of a value below ten.
pub open spec fn decimal_digit(n: nat) -> char {
    seq!['0', '1', '2', '3', '4', '5', '6', '7', '8', '9'][(n % 10) as int]
}

/// The decimal numeral of a natural number, without leading zeros.
pub open spec fn decimal_of(n: nat) -> Seq<char>
    decreases n,
{
    if n < 10 {
        seq![decimal_digit(n)]
    } else {
        decimal_of(n / 10) + seq![decimal_digit(n % 10)]
    }
}

/// Relies on serde_json's `Display` for `Value`: a `Value::String` is written
/// by the compact formatter between quotes, each character escaped through
/// the serializer's `ESCAPE` table and `write_char_escape`.
#[verifier::external_body]
fn json_string(s: &str) -> (r: String)
    ensures
        r@ == json_string_of(s@),
{
    serde_json::Value::from(s).to_string()
}

/// Relies on serde_json: an unsigned integer is written as its decimal
/// numeral.
#[verifier::external_body]
fn json_u64(n: u64) -> (r: String)
    ensures
        r@ == decimal_of(n as nat),
{
    serde_json::Value::from(n).to_string()
}

/// The JSON object of one note.
pub open spec fn note_json(c: Seq<char>) -> Seq<char> {
    "{\"commitment\":"@ + json_string_of(c) + "}"@
}

/// The JSON array items of a list of notes.
pub open spec fn notes_json(cms: Seq<Seq<char>>) -> Seq<char> {
    join_with(cms.map_values(|c: Seq<char>| note_json(c)), ","@)
}

/// The JSON array items of a list of strings.
pub open spec fn strings_json(s: Seq<Seq<char>>) -> Seq<char> {
    join_with(s.map_values(|c: Seq<char>| json_string_of(c)), ","@)
}

/// The canonical encoding of a delta: a compact JSON object with its fields
/// in declaration order.
pub open spec fn delta_json(d: BlockDelta) -> Seq<char> {
    "{\"height\":"@ + decimal_of(d.height as nat) + ",\"new_notes\":["@ + notes_json(
        commitments_of(d.new_notes@),
    ) + "],\"nullifiers\":["@ + strings_json(views_of(d.nullifiers@)) + "]}"@
}

/// The digest that follows `prev` after `d`, for the resulting note set
/// `cms`.
pub open spec fn proof_of(prev: Seq<char>, d: BlockDelta, cms: Seq<Seq<char>>) -> Seq<char> {
    digest_of(encode_utf8(prev + delta_json(d) + aggregate_of(cms)))
}

/// The next digest does not depend on the order of the resulting notes.
pub proof fn lemma_proof_order_independent(
    prev: Seq<char>,
    d: BlockDelta,
    a: Seq<Seq<char>>,
    b: Seq<Seq<char>>,
)
    requires
        a.to_multiset() == b.to_multiset(),
    ensures
        proof_of(prev, d, a) == proof_of(prev, d, b),
{
    lemma_aggregate_order_independent(a, b);
}

fn encode_notes(notes: &Vec<NoteCommitment>) -> (r: String)
    ensures
        r@ == notes_json(commitments_of(notes@)),
{
    let ghost items = commitments_of(notes@).map_values(|c: Seq<char>| note_json(c));
    let mut out = String::new();
    let mut i: usize = 0;
    while i < notes.len()
        invariant
            i <= notes@.len(),
            items == commitments_of(notes@).map_values(|c: Seq<char>| note_json(c)),
            out@ == join_with(items.take(i as int), ","@),
        decreases notes.len() - i,
    {
        let ghost cur = items.take(i + 1);
        assert(cur.drop_last() =~= items.take(i as int));
        if i > 0 {
            out.append(",");
        }
        let q = json_string(notes[i].commitment.as_str());
        out.append("{\"commitment\":");
        out.append(q.as_str());
        out.append("}");
        i = i + 1;
        assert(i == 1 ==> items.take(0) =~= Seq::<Seq<char>>::empty());
        assert(out@ =~= join_with(cur, ","@));
    }
    assert(items.take(i as int) =~= items);
    out
}

fn encode_strings(v: &Vec<String>) -> (r: String)
    ensures
        r@ == strings_json(views_of(v@)),
{
    let ghost items = views_of(v@).map_values(|c: Seq<char>| json_string_of(c));
    let mut out = String::new();
    let mut i: usize = 0;
    while i < v.len()
        invariant
            i <= v@.len(),
            items == views_of(v@).map_values(|c: Seq<char>| json_string_of(c)),
            out@ == join_with(items.take(i as int), ","@),
        decreases v.len() - i,
    {
        let ghost cur = items.take(i + 1);
        assert(cur.drop_last() =~= items.take(i as int));
        if i > 0 {
            out.append(",");
        }
        let q = json_string(v[i].as_str());
        out.append(q.as_str());
        i = i + 1;
        assert(i == 1 ==> items.take(0) =~= Seq::<Seq<char>>::empty());
        assert(out@ =~= join_with(cur, ","@));
    }
    assert(items.take(i as int) =~= items);
    out
}

/// The canonical encoding of a delta.
pub fn encode_delta(d: &BlockDelta) -> (r: String)
    ensures
        r@ == delta_json(*d),
{
    let mut out = String::from_str("{\"height\":");
    let h = json_u64(d.height);
    out.append(h.as_str());
    out.append(",\"new_notes\":[");
    let n = encode_notes(&d.new_notes);
    out.append(n.as_str());
    out.append("],\"nullifiers\":[");
    let s = encode_strings(&d.nullifiers);
    out.append(s.as_str());
    out.append("]}");
    out
}

/// The digest that follows `prev_proof` once `delta` is applied and the
/// wallet holds `next_notes`: the hash of the previous digest, the delta's
/// encoding and the wallet commitment of `next_notes`, concatenated.
pub fn compute_next_proof(prev_proof: &str, delta: &BlockDelta, next_notes: &[NoteCommitment]) -> (r:
    String)
    ensures
        r@ == proof_of(prev_proof@, *delta, commitments_of(next_notes@)),
        r@.len() == 64,
{
    let mut msg = String::from_str(prev_proof);
    let enc = encode_delta(delta);
    msg.append(enc.as_str());
    let agg = wallet_commitment(next_notes);
    msg.append(agg.as_str());
    hash_bytes(msg.as_str().as_bytes())
}

} // verus!
