use vstd::prelude::*;
use crate::token::{Value, ValueV, value_views, wf_value, wf_values_unif, wf_values_list,
    spec_tokenize, TokenV, lemma_value_views_index};
use crate::token_ops::{lemma_wf_unif_index, lemma_wf_list_index, lemma_wf_type_list_index};
use crate::ty::{SolType, wf_type, wf_type_list};

verus! {

/// The 32-byte Keccak-256 digest of a byte string.
pub uninterp spec fn keccak256_of(b: Seq<u8>) -> Seq<u8>;

/// Relies on tiny_keccak's `Keccak::v256` with `update` and `finalize`: a
/// 32-byte digest that depends on the input bytes alone.
#[verifier::external_body]
fn keccak256(b: &Vec<u8>) -> (r: Vec<u8>)
    ensures
        r@ == keccak256_of(b@),
        r@.len() == 32,
{
    let mut h = tiny_keccak::Keccak::v256();
    tiny_keccak::Hasher::update(&mut h, b.as_slice());
    let mut out = [0u8; 32];
    tiny_keccak::Hasher::finalize(h, &mut out);
    out.to_vec()
}

/// The 32-byte word a value contributes to EIP-712 structured-data hashing:
/// a single-word leaf contributes its token word unchanged; dynamic content
/// is hashed; a composite hashes the concatenation of its children's own
/// data words.
pub open spec fn spec_eip712_data_word(ty: SolType, v: ValueV) -> Seq<u8>
    decreases ty, v, 0int,
{
    match ty {
        SolType::Bytes => match v {
            ValueV::Bytes(b) => keccak256_of(b),
            _ => Seq::empty(),
        },
        SolType::Str => match v {
            ValueV::Str(b) => keccak256_of(b),
            _ => Seq::empty(),
        },
        SolType::Array(e) => match v {
            ValueV::List(xs) => keccak256_of(eip712_words_unif(*e, xs)),
            _ => Seq::empty(),
        },
        SolType::FixedArray(e, _) => match v {
            ValueV::List(xs) => keccak256_of(eip712_words_unif(*e, xs)),
            _ => Seq::empty(),
        },
        SolType::Tuple(ts) => match v {
            ValueV::List(xs) => keccak256_of(eip712_words_list(ts@, xs)),
            _ => Seq::empty(),
        },
        _ => match spec_tokenize(ty, v) {
            TokenV::Word(w) => w,
            _ => Seq::empty(),
        },
    }
}

/// The concatenated data words of same-typed children.
pub open spec fn eip712_words_unif(e: SolType, xs: Seq<ValueV>) -> Seq<u8>
    decreases e, xs, 1int,
{
    if xs.len() == 0 {
        Seq::empty()
    } else {
        eip712_words_unif(e, xs.drop_last()) + spec_eip712_data_word(e, xs.last())
    }
}

/// The concatenated data words of a tuple's members.
pub open spec fn eip712_words_list(tys: Seq<SolType>, xs: Seq<ValueV>) -> Seq<u8>
    decreases tys, xs, 1int,
{
    if tys.len() == 0 || xs.len() == 0 {
        Seq::empty()
    } else {
        eip712_words_list(tys.drop_last(), xs.drop_last()) + spec_eip712_data_word(
            tys.last(),
            xs.last(),
        )
    }
}

/// The single-word identity: for a static single-word leaf type, the EIP-712
/// data word is exactly the word standard tokenization produces, with no
/// hashing applied.
pub proof fn lemma_eip712_single_word(ty: SolType, v: ValueV)
    requires
        wf_type(ty),
        wf_value(ty, v),
        ty matches SolType::Bool || ty matches SolType::Uint(_) || ty matches SolType::Int(_)
            || ty matches SolType::Address || ty matches SolType::FixedBytes(_),
    ensures
        spec_tokenize(ty, v) matches TokenV::Word(w) && spec_eip712_data_word(ty, v) == w,
{
    crate::token::lemma_tokenize_valid(ty, v);
}

impl SolType {
    /// The 32-byte EIP-712 `encodeData` contribution of a well-formed value.
    #[verifier::loop_isolation(false)]
    pub fn eip712_data_word(&self, value: &Value) -> (r: Vec<u8>)
        requires
            wf_type(*self),
            wf_value(*self, value@),
        ensures
            r@ == spec_eip712_data_word(*self, value@),
            r@.len() == 32,
        decreases *self, *value, 0int,
    {
        match (self, value) {
            (SolType::Bytes, Value::Bytes(b)) => keccak256(b),
            (SolType::Str, Value::Str(b)) => keccak256(b),
            (SolType::Array(e), Value::List(xs)) => {
                let buf = eip712_children_unif(e, xs);
                keccak256(&buf)
            },
            (SolType::FixedArray(e, _), Value::List(xs)) => {
                let buf = eip712_children_unif(e, xs);
                keccak256(&buf)
            },
            (SolType::Tuple(ts), Value::List(xs)) => {
                let buf = eip712_children_list(ts, xs);
                keccak256(&buf)
            },
            _ => {
                proof {
                    crate::token::lemma_tokenize_valid(*self, value@);
                }
                let t = self.tokenize(value);
                match t {
                    crate::token::Token::Word(w) => w,
                    _ => {
                        proof {
                            assert(false);
                        }
                        Vec::new()
                    },
                }
            },
        }
    }
}

#[verifier::loop_isolation(false)]
fn eip712_children_unif(e: &SolType, xs: &Vec<Value>) -> (r: Vec<u8>)
    requires
        wf_type(*e),
        wf_values_unif(*e, value_views(xs@)),
    ensures
        r@ == eip712_words_unif(*e, value_views(xs@)),
    decreases *e, xs@, 1int,
{
    let ghost vv = value_views(xs@);
    proof {
        lemma_value_views_index(xs@);
    }
    let mut out: Vec<u8> = Vec::new();
    let mut i: usize = 0;
    while i < xs.len()
        invariant
            i <= xs@.len(),
            out@ == eip712_words_unif(*e, vv.take(i as int)),
        decreases xs@.len() - i,
    {
        proof {
            lemma_wf_unif_index(*e, vv, i as int);
        }
        let w = e.eip712_data_word(&xs[i]);
        crate::encode::push_bytes(&mut out, &w);
        proof {
            assert(vv.take(i + 1).drop_last() =~= vv.take(i as int));
            assert(vv.take(i + 1).last() == vv[i as int]);
            assert(out@ =~= eip712_words_unif(*e, vv.take(i + 1)));
        }
        i = i + 1;
    }
    proof {
        assert(vv.take(vv.len() as int) =~= vv);
    }
    out
}

#[verifier::loop_isolation(false)]
fn eip712_children_list(tys: &Vec<SolType>, xs: &Vec<Value>) -> (r: Vec<u8>)
    requires
        wf_type_list(tys@),
        wf_values_list(tys@, value_views(xs@)),
    ensures
        r@ == eip712_words_list(tys@, value_views(xs@)),
    decreases tys@, xs@, 1int,
{
    let ghost vv = value_views(xs@);
    proof {
        lemma_value_views_index(xs@);
    }
    let mut out: Vec<u8> = Vec::new();
    let mut i: usize = 0;
    while i < xs.len()
        invariant
            i <= xs@.len(),
            out@ == eip712_words_list(tys@.take(i as int), vv.take(i as int)),
        decreases xs@.len() - i,
    {
        proof {
            lemma_wf_list_index(tys@, vv, i as int);
            lemma_wf_type_list_index(tys@, i as int);
        }
        let w = tys[i].eip712_data_word(&xs[i]);
        crate::encode::push_bytes(&mut out, &w);
        proof {
            assert(vv.take(i + 1).drop_last() =~= vv.take(i as int));
            assert(tys@.take(i + 1).drop_last() =~= tys@.take(i as int));
            assert(vv.take(i + 1).last() == vv[i as int]);
            assert(tys@.take(i + 1).last() == tys@[i as int]);
            assert(out@ =~= eip712_words_list(tys@.take(i + 1), vv.take(i + 1)));
        }
        i = i + 1;
    }
    proof {
        assert(vv.take(vv.len() as int) =~= vv);
        assert(tys@.take(tys@.len() as int) =~= tys@);
    }
    out
}

} // verus!
