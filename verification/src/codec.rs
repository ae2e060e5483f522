//! The prefixed hex codec: a byte sequence travels as `prefix ++ hex(bytes)`,
//! where the prefix is fixed at compile time by a zero-size tag type, so that
//! byte blobs of distinct semantic kinds cannot be confused with one another.

use vstd::prelude::*;
use crate::hex_bytes::{
    bytes_of_hex, hex_decode, hex_encode, hex_of, lemma_bytes_of_hex_of, lemma_hex_of_valid,
    valid_hex,
};

verus! {

/// A compile-time tag: a zero-size marker that yields the fixed prefix string
/// identifying one semantic kind of byte blob.
pub trait Prefix {
    /// The prefix as a character sequence, for contracts.
    spec fn spec_prefix() -> Seq<char>;

    /// The prefix string itself.
    fn prefix() -> (s: &'static str)
        ensures
            s@ == Self::spec_prefix(),
    ;
}

/// "sync-bl:" hex prefix
pub struct SyncBlockPrefix;

impl Prefix for SyncBlockPrefix {
    open spec fn spec_prefix() -> Seq<char> {
        "sync-bl:"@
    }

    fn prefix() -> (s: &'static str)
        ensures
            s@ == Self::spec_prefix(),
    {
        "sync-bl:"
    }
}

/// "0x" hex prefix
pub struct ZeroxPrefix;

impl Prefix for ZeroxPrefix {
    open spec fn spec_prefix() -> Seq<char> {
        "0x"@
    }

    fn prefix() -> (s: &'static str)
        ensures
            s@ == Self::spec_prefix(),
    {
        "0x"
    }
}

/// "sync-tx:" hex prefix
pub struct SyncTxPrefix;

impl Prefix for SyncTxPrefix {
    open spec fn spec_prefix() -> Seq<char> {
        "sync-tx:"@
    }

    fn prefix() -> (s: &'static str)
        ensures
            s@ == Self::spec_prefix(),
    {
        "sync-tx:"
    }
}

/// Why decoding a tagged hex string was refused.
#[derive(Debug, Clone, Copy, PartialEq, Eq, Structural)]
pub enum FormatError {
    /// The input does not start with the expected prefix.
    MissingPrefix,
    /// The body after the prefix is not well-formed hexadecimal.
    InvalidHex,
}

/// Converts a byte sequence to and from its tagged hex string, the tag chosen
/// by the type parameter.
pub struct BytesToHexSerde<P> {
    _marker: core::marker::PhantomData<P>,
}

impl<P: Prefix> BytesToHexSerde<P> {
    /// The tagged hex string of a byte sequence.
    pub open spec fn spec_encode(b: Seq<u8>) -> Seq<char> {
        P::spec_prefix() + hex_of(b)
    }

    /// The byte sequence a tagged hex string denotes, or nothing where the
    /// prefix is absent or the body is not hexadecimal.
    pub open spec fn spec_decode(s: Seq<char>) -> Option<Seq<u8>> {
        if P::spec_prefix().is_prefix_of(s) && valid_hex(s.skip(P::spec_prefix().len() as int)) {
            Some(bytes_of_hex(s.skip(P::spec_prefix().len() as int)))
        } else {
            None
        }
    }

    /// Renders a byte sequence as the tag's prefix followed by its lowercase
    /// hexadecimal digits. Never fails; an empty sequence yields the prefix
    /// alone.
    pub fn encode(value: &[u8]) -> (r: String)
        ensures
            r@ == Self::spec_encode(value@),
    {
        let hex_part = hex_encode(value);
        let mut out = String::from_str(P::prefix());
        out.append(hex_part.as_str());
        out
    }

    /// Reads a byte sequence back from a tagged hex string. Succeeds exactly
    /// on strings of the form `prefix ++ hex-digits`; reports whether the
    /// prefix or the hexadecimal body was at fault.
    pub fn decode(text: &str) -> (r: Result<Vec<u8>, FormatError>)
        ensures
            match r {
                Ok(v) => Self::spec_decode(text@) == Some(v@),
                Err(e) => Self::spec_decode(text@) is None && (e is MissingPrefix
                    <==> !P::spec_prefix().is_prefix_of(text@)),
            },
    {
        let prefix = P::prefix();
        let plen = prefix.unicode_len();
        let tlen = text.unicode_len();
        if tlen < plen {
            return Err(FormatError::MissingPrefix);
        }
        let mut i: usize = 0;
        while i < plen
            invariant
                0 <= i <= plen,
                prefix@ == P::spec_prefix(),
                plen == P::spec_prefix().len(),
                tlen == text@.len(),
                plen <= tlen,
                forall|j: int| 0 <= j < i ==> text@[j] == P::spec_prefix()[j],
            decreases plen - i,
        {
            if text.get_char(i) != prefix.get_char(i) {
                assert(!P::spec_prefix().is_prefix_of(text@));
                return Err(FormatError::MissingPrefix);
            }
            i += 1;
        }
        assert(P::spec_prefix() =~= text@.subrange(0, plen as int));
        let rest = text.substring_char(plen, tlen);
        assert(rest@ =~= text@.skip(plen as int));
        match hex_decode(rest) {
            Some(v) => Ok(v),
            None => Err(FormatError::InvalidHex),
        }
    }
}

/// Converts an optional byte sequence to and from an optional tagged hex
/// string. Absence travels as the external absent marker, never as a tagged
/// string of zero bytes.
pub struct OptionBytesToHexSerde<P> {
    _marker: core::marker::PhantomData<P>,
}

impl<P: Prefix> OptionBytesToHexSerde<P> {
    /// The optional tagged hex string of an optional byte sequence: absence
    /// stays absent, a present sequence is encoded under the tag.
    pub open spec fn spec_encode(ob: Option<Seq<u8>>) -> Option<Seq<char>> {
        match ob {
            None => None,
            Some(b) => Some(BytesToHexSerde::<P>::spec_encode(b)),
        }
    }

    /// The optional byte sequence an optional tagged hex string denotes:
    /// absence decodes to absence, a present string must decode under the
    /// tag; nothing where it does not.
    pub open spec fn spec_decode(os: Option<Seq<char>>) -> Option<Option<Seq<u8>>> {
        match os {
            None => Some(None),
            Some(s) => match BytesToHexSerde::<P>::spec_decode(s) {
                Some(v) => Some(Some(v)),
                None => None,
            },
        }
    }

    /// Renders an optional byte sequence: `None` stays `None`, a present
    /// sequence becomes its tagged hex string.
    pub fn encode(value: &Option<Vec<u8>>) -> (r: Option<String>)
        ensures
            match value {
                None => r is None,
                Some(v) => r matches Some(s) && s@ == BytesToHexSerde::<P>::spec_encode(v@),
            },
    {
        match value {
            None => None,
            Some(v) => Some(BytesToHexSerde::<P>::encode(v.as_slice())),
        }
    }

    /// Reads an optional byte sequence back: `None` yields `None`, a present
    /// string is decoded under the tag, and its failure is reported
    /// unchanged.
    pub fn decode(text: Option<String>) -> (r: Result<Option<Vec<u8>>, FormatError>)
        ensures
            match text {
                None => r matches Ok(ov) && ov is None,
                Some(s) => match r {
                    Ok(ov) => ov matches Some(v) && BytesToHexSerde::<P>::spec_decode(s@) == Some(
                        v@,
                    ),
                    Err(e) => BytesToHexSerde::<P>::spec_decode(s@) is None && (e is MissingPrefix
                        <==> !P::spec_prefix().is_prefix_of(s@)),
                },
            },
    {
        match text {
            None => Ok(None),
            Some(s) => match BytesToHexSerde::<P>::decode(s.as_str()) {
                Ok(v) => Ok(Some(v)),
                Err(e) => Err(e),
            },
        }
    }
}

/// Law: decoding an encoded byte sequence under the same tag recovers it
/// exactly, for every byte sequence and every tag.
pub proof fn lemma_codec_round_trip<P: Prefix>(b: Seq<u8>)
    ensures
        BytesToHexSerde::<P>::spec_decode(BytesToHexSerde::<P>::spec_encode(b)) == Some(b),
{
    lemma_hex_of_valid(b);
    lemma_bytes_of_hex_of(b);
    let p = P::spec_prefix();
    let s = BytesToHexSerde::<P>::spec_encode(b);
    assert(p =~= s.subrange(0, p.len() as int));
    assert(s.skip(p.len() as int) =~= hex_of(b));
}

/// Law: decoding an encoded optional byte sequence under the same tag
/// recovers it exactly, absence included.
pub proof fn lemma_codec_round_trip_opt<P: Prefix>(ob: Option<Seq<u8>>)
    ensures
        OptionBytesToHexSerde::<P>::spec_decode(OptionBytesToHexSerde::<P>::spec_encode(ob))
            == Some(ob),
{
    match ob {
        None => {
        },
        Some(b) => {
            lemma_codec_round_trip::<P>(b);
        },
    }
}

/// The three registered tags have pairwise incomparable prefixes, so the
/// discrimination law below applies to every pair of distinct registered
/// tags.
pub proof fn lemma_registered_prefixes_incomparable()
    ensures
        !SyncBlockPrefix::spec_prefix().is_prefix_of(ZeroxPrefix::spec_prefix()),
        !ZeroxPrefix::spec_prefix().is_prefix_of(SyncBlockPrefix::spec_prefix()),
        !SyncBlockPrefix::spec_prefix().is_prefix_of(SyncTxPrefix::spec_prefix()),
        !SyncTxPrefix::spec_prefix().is_prefix_of(SyncBlockPrefix::spec_prefix()),
        !ZeroxPrefix::spec_prefix().is_prefix_of(SyncTxPrefix::spec_prefix()),
        !SyncTxPrefix::spec_prefix().is_prefix_of(ZeroxPrefix::spec_prefix()),
{
    reveal_strlit("sync-bl:");
    reveal_strlit("0x");
    reveal_strlit("sync-tx:");
    let bl = SyncBlockPrefix::spec_prefix();
    let zx = ZeroxPrefix::spec_prefix();
    let tx = SyncTxPrefix::spec_prefix();
    assert(zx[0] != bl[0]);
    assert(zx[0] != tx[0]);
    assert(bl[5] != tx[5]);
    assert(!zx.is_prefix_of(bl)) by {
        assert(bl.subrange(0, 2)[0] == bl[0]);
    }
    assert(!zx.is_prefix_of(tx)) by {
        assert(tx.subrange(0, 2)[0] == tx[0]);
    }
    assert(!bl.is_prefix_of(tx)) by {
        assert(tx.subrange(0, 8)[5] == tx[5]);
    }
    assert(!tx.is_prefix_of(bl)) by {
        assert(bl.subrange(0, 8)[5] == bl[5]);
    }
}

/// Law: a byte sequence encoded under one tag never decodes under a tag with
/// an incomparable prefix — where neither tag's prefix is a prefix of the
/// other's, decoding fails, whatever the bytes were.
pub proof fn lemma_tag_discrimination<P: Prefix, Q: Prefix>(b: Seq<u8>)
    requires
        !Q::spec_prefix().is_prefix_of(P::spec_prefix()),
        !P::spec_prefix().is_prefix_of(Q::spec_prefix()),
    ensures
        BytesToHexSerde::<P>::spec_decode(BytesToHexSerde::<Q>::spec_encode(b)) is None,
{
    let p = P::spec_prefix();
    let q = Q::spec_prefix();
    let s = BytesToHexSerde::<Q>::spec_encode(b);
    if p.is_prefix_of(s) {
        if p.len() <= q.len() {
            assert forall|i: int| 0 <= i < p.len() implies p[i] == q[i] by {
                assert(p[i] == s.subrange(0, p.len() as int)[i]);
            }
            assert(p =~= q.subrange(0, p.len() as int));
            assert(p.is_prefix_of(q));
        } else {
            assert forall|i: int| 0 <= i < q.len() implies q[i] == p[i] by {
                assert(p[i] == s.subrange(0, p.len() as int)[i]);
            }
            assert(q =~= p.subrange(0, q.len() as int));
            assert(q.is_prefix_of(p));
        }
    }
}

} // verus!
