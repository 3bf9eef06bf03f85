//! Sketches of input records.

use vstd::prelude::*;
use vstd::string::*;

use crate::sketch;
use crate::sketch::hash;
use crate::sketch::minhash32::{MinHash32, Sketch32, AFFINE32_SCHEME};
use crate::sketch::MinHashError;
use crate::text;

verus! {

/// Why a record has no sketch.
#[derive(Debug, Clone, PartialEq, Eq)]
pub enum RecordError {
    /// A record with values names a signature scheme.
    UnexpectedScheme,
    /// A record with a signature names no scheme.
    MissingScheme,
    /// The scheme of the signature is another one.
    UnsupportedScheme {
        /// The scheme.
        scheme: String,
    },
    /// The signature has the wrong length.
    SignatureLength {
        /// Its length.
        found: usize,
        /// The length of the index's signatures.
        expected: usize,
    },
    /// The record has both values and a signature.
    Both,
    /// The record has neither values nor a signature.
    Neither,
    /// The sketch was rejected.
    Sketch(MinHashError),
}

/// What a record error says.
#[verifier::ext_equal]
pub enum RecordFault {
    UnexpectedScheme,
    MissingScheme,
    UnsupportedScheme { scheme: Seq<char> },
    SignatureLength { found: usize, expected: usize },
    Both,
    Neither,
    Sketch(MinHashError),
}

impl View for RecordError {
    type V = RecordFault;

    open spec fn view(&self) -> RecordFault {
        match *self {
            RecordError::UnexpectedScheme => RecordFault::UnexpectedScheme,
            RecordError::MissingScheme => RecordFault::MissingScheme,
            RecordError::UnsupportedScheme { scheme } => RecordFault::UnsupportedScheme {
                scheme: scheme@,
            },
            RecordError::SignatureLength { found, expected } => RecordFault::SignatureLength {
                found,
                expected,
            },
            RecordError::Both => RecordFault::Both,
            RecordError::Neither => RecordFault::Neither,
            RecordError::Sketch(error) => RecordFault::Sketch(error),
        }
    }
}

/// The byte strings of texts.
pub open spec fn text_bytes(values: Seq<String>) -> Seq<Seq<u8>> {
    Seq::new(values.len(), |i: int| vstd::utf8::encode_utf8(values[i]@))
}

/// The sketch of a record, or why it has none: a record has either values, which
/// are sketched, or a signature of the index's scheme and length.
pub open spec fn sketched(
    values: Option<Seq<String>>,
    signature: Option<Seq<u32>>,
    scheme: Option<Seq<char>>,
    num_perm: usize,
    seed: u64,
) -> Result<Sketch32, RecordFault> {
    match (values, signature) {
        (Some(values), None) => if scheme is Some {
            Err(RecordFault::UnexpectedScheme)
        } else if !sketch::valid_num_perm(num_perm as nat) {
            Err(
                RecordFault::Sketch(
                    MinHashError::InvalidPermutationCount { requested: num_perm },
                ),
            )
        } else {
            Ok(Sketch32::blank(num_perm as nat, seed).add_all(text_bytes(values)))
        },
        (None, Some(signature)) => match scheme {
            None => Err(RecordFault::MissingScheme),
            Some(scheme) => if scheme != AFFINE32_SCHEME@ {
                Err(RecordFault::UnsupportedScheme { scheme })
            } else if signature.len() != num_perm {
                Err(
                    RecordFault::SignatureLength {
                        found: signature.len() as usize,
                        expected: num_perm,
                    },
                )
            } else if !sketch::valid_num_perm(num_perm as nat) {
                Err(
                    RecordFault::Sketch(
                        MinHashError::InvalidPermutationCount { requested: num_perm },
                    ),
                )
            } else {
                Ok(Sketch32::loaded(signature, seed))
            },
        },
        (Some(_), Some(_)) => Err(RecordFault::Both),
        (None, None) => Err(RecordFault::Neither),
    }
}

/// What the optional fields of a record hold.
pub open spec fn values_of(values: Option<&Vec<String>>) -> Option<Seq<String>> {
    match values {
        Some(values) => Some(values@),
        None => None,
    }
}

/// What the optional signature of a record holds.
pub open spec fn signature_of(signature: Option<&Vec<u32>>) -> Option<Seq<u32>> {
    match signature {
        Some(signature) => Some(signature@),
        None => None,
    }
}

/// What the optional scheme of a record holds.
pub open spec fn scheme_of(scheme: Option<&String>) -> Option<Seq<char>> {
    match scheme {
        Some(scheme) => Some(scheme@),
        None => None,
    }
}

fn sketch_values(values: &Vec<String>, num_perm: usize, seed: u64) -> (result: Result<
    MinHash32,
    MinHashError,
>)
    ensures
        match result {
            Ok(sketch) => sketch::valid_num_perm(num_perm as nat) && sketch.wf() && sketch@
                == Sketch32::blank(num_perm as nat, seed).add_all(text_bytes(values@)),
            Err(error) => !sketch::valid_num_perm(num_perm as nat) && error
                == MinHashError::InvalidPermutationCount { requested: num_perm },
        },
{
    let mut sketch = match MinHash32::new(num_perm, seed) {
        Ok(sketch) => sketch,
        Err(error) => {
            return Err(error);
        },
    };
    let ghost items = text_bytes(values@);
    let mut index: usize = 0;
    assert(items.take(0) =~= Seq::empty());
    while index < values.len()
        invariant
            index <= values@.len(),
            items == text_bytes(values@),
            sketch.wf(),
            sketch@ == Sketch32::blank(num_perm as nat, seed).add_all(items.take(index as int)),
        decreases values@.len() - index,
    {
        let bytes = values[index].as_str().as_bytes();
        proof {
            let next = items.take(index + 1);
            assert(next.drop_last() =~= items.take(index as int));
            assert(next.last() == bytes@);
        }
        sketch.update(bytes);
        index = index + 1;
    }
    assert(items.take(index as int) =~= items);
    Ok(sketch)
}

/// Sketch a record.
pub fn make_sketch(
    values: Option<&Vec<String>>,
    signature: Option<&Vec<u32>>,
    scheme: Option<&String>,
    num_perm: usize,
    seed: u64,
) -> (result: Result<MinHash32, RecordError>)
    ensures
        match sketched(
            values_of(values),
            signature_of(signature),
            scheme_of(scheme),
            num_perm,
            seed,
        ) {
            Ok(found) => result matches Ok(sketch) && sketch.wf() && sketch@ == found,
            Err(fault) => result matches Err(error) && error@ == fault,
        },
{
    match (values, signature) {
        (Some(values), None) => {
            if scheme.is_some() {
                return Err(RecordError::UnexpectedScheme);
            }
            match sketch_values(values, num_perm, seed) {
                Ok(sketch) => Ok(sketch),
                Err(error) => Err(RecordError::Sketch(error)),
            }
        },
        (None, Some(signature)) => {
            let scheme = match scheme {
                Some(scheme) => scheme,
                None => {
                    return Err(RecordError::MissingScheme);
                },
            };
            if !text::spells(&text::chars_of(scheme.as_str()), AFFINE32_SCHEME) {
                return Err(
                    RecordError::UnsupportedScheme { scheme: scheme.as_str().to_owned() },
                );
            }
            if signature.len() != num_perm {
                return Err(
                    RecordError::SignatureLength { found: signature.len(), expected: num_perm },
                );
            }
            let copied = vstd::slice::slice_to_vec(signature.as_slice());
            match MinHash32::from_signature(copied, seed) {
                Ok(sketch) => Ok(sketch),
                Err(error) => Err(RecordError::Sketch(error)),
            }
        },
        (Some(_), Some(_)) => Err(RecordError::Both),
        (None, None) => Err(RecordError::Neither),
    }
}

/// A record has a sketch exactly where the index can have signatures of that length and
/// the record has either values and no scheme, or a signature of that length in the
/// index's scheme.
pub proof fn law_which_records_have_a_sketch(
    values: Option<Seq<String>>,
    signature: Option<Seq<u32>>,
    scheme: Option<Seq<char>>,
    num_perm: usize,
    seed: u64,
)
    ensures
        sketched(values, signature, scheme, num_perm, seed) is Ok == (1 <= num_perm <= u32::MAX
            && ((values is Some && signature is None && scheme is None) || (values is None
            && signature is Some && scheme == Some("pari-affine32-v1"@) && signature->0.len()
            == num_perm))),
        values is Some && signature is Some ==> sketched(
            values,
            signature,
            scheme,
            num_perm,
            seed,
        ) == Err::<Sketch32, RecordFault>(RecordFault::Both),
        values is None && signature is None ==> sketched(
            values,
            signature,
            scheme,
            num_perm,
            seed,
        ) == Err::<Sketch32, RecordFault>(RecordFault::Neither),
{
}

/// The sketch of a record with values holds every one of them: at each position it is the
/// smallest of the values that the permutation gives to their hashes, and the maximum
/// where the record has no value.
pub proof fn law_record_sketch_holds_every_value(
    values: Seq<String>,
    num_perm: usize,
    seed: u64,
    index: int,
)
    requires
        1 <= num_perm <= u32::MAX,
        0 <= index < num_perm,
    ensures
        sketched(Some(values), None, None, num_perm, seed) is Ok,
        ({
            let found = sketched(Some(values), None, None, num_perm, seed)->Ok_0;
            &&& found.seed == seed
            &&& found.values.len() == num_perm
            &&& forall|k: int|
                0 <= k < values.len() ==> found.values[index] <= Sketch32::permuted(
                    seed,
                    num_perm as nat,
                    index,
                    hash::digest_hash32(
                        hash::sha1_digest(vstd::utf8::encode_utf8((#[trigger] values[k])@)),
                    ),
                )
            &&& values.len() == 0 ==> found.values[index] == u32::MAX
            &&& values.len() > 0 ==> exists|k: int|
                0 <= k < values.len() && found.values[index] == Sketch32::permuted(
                    seed,
                    num_perm as nat,
                    index,
                    hash::digest_hash32(
                        hash::sha1_digest(vstd::utf8::encode_utf8((#[trigger] values[k])@)),
                    ),
                )
        }),
{
    let items = text_bytes(values);
    assert(items.len() == values.len());
    Sketch32::law_sketch_holds_every_item(num_perm as nat, seed, items, index);
    let found = sketched(Some(values), None, None, num_perm, seed)->Ok_0;
    assert forall|k: int| 0 <= k < values.len() implies found.values[index] <= Sketch32::permuted(
        seed,
        num_perm as nat,
        index,
        hash::digest_hash32(
            hash::sha1_digest(vstd::utf8::encode_utf8((#[trigger] values[k])@)),
        ),
    ) by {
        assert(items[k] == vstd::utf8::encode_utf8(values[k]@));
    }
    if values.len() > 0 {
        let k = choose|k: int|
            0 <= k < items.len() && found.values[index] == Sketch32::permuted(
                seed,
                num_perm as nat,
                index,
                hash::digest_hash32(hash::sha1_digest(#[trigger] items[k])),
            );
        assert(items[k] == vstd::utf8::encode_utf8(values[k]@));
        assert(values[k]@ == values[k]@);
    }
}

/// Adding any of its values to the sketch of a record again leaves it as it is.
pub proof fn law_record_values_are_in_its_sketch(
    values: Seq<String>,
    num_perm: usize,
    seed: u64,
    again: int,
)
    requires
        1 <= num_perm <= u32::MAX,
        0 <= again < values.len(),
    ensures
        sketched(Some(values), None, None, num_perm, seed) is Ok,
        ({
            let found = sketched(Some(values), None, None, num_perm, seed)->Ok_0;
            found.add(vstd::utf8::encode_utf8(values[again]@)) == found
        }),
{
    let items = text_bytes(values);
    assert(items[again] == vstd::utf8::encode_utf8(values[again]@));
    Sketch32::blank(num_perm as nat, seed).law_adding_again_changes_nothing(items, again);
}

/// The sketch of a record with a signature has that signature.
pub proof fn law_record_signature_is_kept(
    signature: Seq<u32>,
    scheme: Option<Seq<char>>,
    num_perm: usize,
    seed: u64,
)
    requires
        sketched(None, Some(signature), scheme, num_perm, seed) is Ok,
    ensures
        sketched(None, Some(signature), scheme, num_perm, seed)->Ok_0.values == signature,
        sketched(None, Some(signature), scheme, num_perm, seed)->Ok_0.seed == seed,
{
}

} // verus!
