//! A verified decoder for the bencoding serialization format: byte strings,
//! signed integers, lists, and string-keyed dictionaries, read from a raw
//! byte buffer by a recursive-descent parser with one byte of lookahead.
use vstd::prelude::*;

pub mod decoder;
pub mod grammar;
pub mod laws;

verus! {

/// Everything that can go wrong while decoding, one variant per distinct
/// syntactic fault; `decode` reports the first fault of a left-to-right scan.
#[derive(Clone, Copy, Debug, PartialEq, Eq)]
pub enum DecodeError {
    /// `decode` was called on an empty buffer.
    EmptyInput,
    /// The next byte begins none of the four productions, or the input ended
    /// where a value was expected.
    UnrecognizedValue,
    /// A byte string's decimal length is not followed by `:` (or no length
    /// digits were found at all).
    MissingColon,
    /// A byte string declares more content bytes than the input still holds.
    TruncatedString,
    /// An integer's `i` was never closed by `e`.
    UnterminatedInteger,
    /// `ie`: an integer with no digits.
    EmptyInteger,
    /// An integer with a superfluous leading zero, such as `i03e`.
    LeadingZero,
    /// The non-canonical spelling `i-0e`.
    NegativeZero,
    /// An integer body with stray characters or outside the signed 64-bit range.
    NotANumber,
    /// A dictionary's `d` was never closed by `e`.
    UnterminatedDictionary,
    /// A dictionary key whose bytes are not valid UTF-8.
    InvalidKey,
}

/// One decoded bencoded value. A dictionary is kept as its key/value pairs in
/// encounter order with no duplicate keys (a later binding for a key replaces
/// the earlier one while decoding); contracts view it as a `Map`.
#[derive(Debug, PartialEq)]
pub enum BencodingResult {
    Int(i64),
    List(Vec<BencodingResult>),
    Dict(Vec<(String, BencodingResult)>),
    ByteString(Vec<u8>),
}

/// The mathematical shape of a decoded value: what `BencodingResult` views as.
pub enum SpecValue {
    Int(int),
    List(Seq<SpecValue>),
    Dict(Map<Seq<char>, SpecValue>),
    Bytes(Seq<u8>),
}

/// The map that a sequence of key/value pairs denotes: later pairs take
/// precedence over earlier pairs with the same key.
pub open spec fn pairs_to_map(ps: Seq<(Seq<char>, SpecValue)>) -> Map<Seq<char>, SpecValue>
    decreases ps.len(),
{
    if ps.len() == 0 {
        Map::empty()
    } else {
        pairs_to_map(ps.drop_last()).insert(ps.last().0, ps.last().1)
    }
}

/// The element-wise view of a sequence of decoded values.
pub open spec fn seq_view(s: Seq<BencodingResult>) -> Seq<SpecValue>
    decreases s,
{
    if s.len() == 0 {
        Seq::empty()
    } else {
        seq_view(s.drop_last()).push(s.last()@)
    }
}

/// The pair-wise view of a sequence of dictionary entries.
pub open spec fn entries_view(s: Seq<(String, BencodingResult)>) -> Seq<(Seq<char>, SpecValue)>
    decreases s,
{
    if s.len() == 0 {
        Seq::empty()
    } else {
        entries_view(s.drop_last()).push((s.last().0@, s.last().1@))
    }
}

impl View for BencodingResult {
    type V = SpecValue;

    open spec fn view(&self) -> SpecValue
        decreases self,
    {
        match self {
            BencodingResult::Int(i) => SpecValue::Int(*i as int),
            BencodingResult::List(elems) => SpecValue::List(seq_view(elems@)),
            BencodingResult::Dict(entries) => SpecValue::Dict(pairs_to_map(entries_view(entries@))),
            BencodingResult::ByteString(bytes) => SpecValue::Bytes(bytes@),
        }
    }
}

/// No two pairs bind the same key.
pub open spec fn unique_keys(ps: Seq<(Seq<char>, SpecValue)>) -> bool {
    forall|i: int, j: int| 0 <= i < j < ps.len() ==> (#[trigger] ps[i]).0 != (#[trigger] ps[j]).0
}

/// Appending a pair binds its key in the denoted map.
pub proof fn lemma_pairs_to_map_push(ps: Seq<(Seq<char>, SpecValue)>, p: (Seq<char>, SpecValue))
    ensures
        pairs_to_map(ps.push(p)) == pairs_to_map(ps).insert(p.0, p.1),
{
    assert(ps.push(p).drop_last() =~= ps);
}

/// Replacing the one pair that binds a key rebinds that key in the denoted map.
pub proof fn lemma_pairs_to_map_update(
    ps: Seq<(Seq<char>, SpecValue)>,
    fi: int,
    p: (Seq<char>, SpecValue),
)
    requires
        unique_keys(ps),
        0 <= fi < ps.len(),
        ps[fi].0 == p.0,
    ensures
        pairs_to_map(ps.update(fi, p)) =~= pairs_to_map(ps).insert(p.0, p.1),
    decreases ps.len(),
{
    let qs = ps.update(fi, p);
    if fi == ps.len() - 1 {
        assert(qs.drop_last() =~= ps.drop_last());
        assert(qs.last() == p);
    } else {
        assert(qs.drop_last() =~= ps.drop_last().update(fi, p));
        assert(qs.last() == ps.last());
        assert(unique_keys(ps.drop_last()));
        lemma_pairs_to_map_update(ps.drop_last(), fi, p);
        assert(ps.last().0 != p.0);
    }
}

/// The pair-wise view keeps length and elements in place.
pub proof fn lemma_entries_view_index(s: Seq<(String, BencodingResult)>)
    ensures
        entries_view(s).len() == s.len(),
        forall|i: int| 0 <= i < s.len() ==> entries_view(s)[i] == (s[i].0@, s[i].1@),
    decreases s.len(),
{
    if s.len() > 0 {
        lemma_entries_view_index(s.drop_last());
        assert(entries_view(s) == entries_view(s.drop_last()).push((s.last().0@, s.last().1@)));
        assert forall|i: int| 0 <= i < s.len() implies entries_view(s)[i] == (s[i].0@, s[i].1@) by {
            if i < s.len() - 1 {
                assert(entries_view(s)[i] == entries_view(s.drop_last())[i]);
                assert(s.drop_last()[i] == s[i]);
            }
        }
    }
}

/// The pair-wise view commutes with replacing one entry.
pub proof fn lemma_entries_view_update(
    s: Seq<(String, BencodingResult)>,
    i: int,
    e: (String, BencodingResult),
)
    requires
        0 <= i < s.len(),
    ensures
        entries_view(s.update(i, e)) =~= entries_view(s).update(i, (e.0@, e.1@)),
{
    lemma_entries_view_index(s);
    lemma_entries_view_index(s.update(i, e));
}

} // verus!
