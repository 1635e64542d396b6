use vstd::prelude::*;
use crate::decode::{dec_elem, dec_list, dec_unif, decode_elem, decode_list, decode_unif,
    lemma_dec_matches, lemma_dec_list_matches, lemma_dec_unif_matches};
use crate::encode::{enc, enc_seq_list, enc_seq_unif, encode_token_into, encode_group_list,
    encode_group_unif};
use crate::errors::Error;
use crate::token::{Token, TokenV, Value, ValueV, token_views, token_matches, tokens_match_list,
    spec_valid_token, wf_value, spec_tokenize, spec_detokenize, lemma_tokenize_valid};
use crate::ty::{SolType, spec_dynamic, spec_name, wf_type};
use crate::words::{len_word, push_len_word, lemma_be_bytes_len};

verus! {

/// The standard encoding of one value: the value laid out as the sole element
/// of a head/tail group. A static value is its in-place bytes; a dynamic one
/// is an offset word (always 32) followed by its tail encoding.
pub open spec fn spec_abi_encode(ty: SolType, v: ValueV) -> Seq<u8> {
    enc_group_one(ty, spec_tokenize(ty, v))
}

/// The head/tail group of a single element.
pub open spec fn enc_group_one(ty: SolType, t: TokenV) -> Seq<u8> {
    if spec_dynamic(ty) {
        len_word(32) + enc(ty, t)
    } else {
        enc(ty, t)
    }
}

/// The standard encoding of a sequence value (a tuple or a fixed array) as a
/// bare parameter list: the head/tail group of its members, with no outer
/// wrapping and no length word.
pub open spec fn spec_abi_encode_sequence(ty: SolType, v: ValueV) -> Seq<u8> {
    match ty {
        SolType::Tuple(ts) => match spec_tokenize(ty, v) {
            TokenV::FixedSeq(ks) => enc_seq_list(ts@, ks),
            _ => Seq::empty(),
        },
        SolType::FixedArray(e, _) => match spec_tokenize(ty, v) {
            TokenV::FixedSeq(ks) => enc_seq_unif(*e, ks),
            _ => Seq::empty(),
        },
        _ => Seq::empty(),
    }
}

/// The token a single-value decode of `data` parses, if any.
pub open spec fn spec_abi_decode_token(ty: SolType, data: Seq<u8>) -> Option<TokenV> {
    dec_elem(ty, data, 0, 0)
}

/// The token a parameter-list decode of `data` parses, if any.
pub open spec fn spec_abi_decode_sequence_token(ty: SolType, data: Seq<u8>) -> Option<TokenV> {
    match ty {
        SolType::Tuple(ts) => match dec_list(ts@, data, 0, 0) {
            Some(ks) => Some(TokenV::FixedSeq(ks)),
            None => None,
        },
        SolType::FixedArray(e, n) => match dec_unif(*e, n as nat, data, 0, 0) {
            Some(ks) => Some(TokenV::FixedSeq(ks)),
            None => None,
        },
        _ => None,
    }
}

impl SolType {
    /// Encodes a well-formed value of this type as a single-element sequence.
    pub fn abi_encode(&self, value: &Value) -> (r: Vec<u8>)
        requires
            wf_type(*self),
            wf_value(*self, value@),
            spec_abi_encode(*self, value@).len() <= usize::MAX,
        ensures
            r@ == spec_abi_encode(*self, value@),
    {
        proof {
            lemma_tokenize_valid(*self, value@);
            lemma_be_bytes_len(32, 32);
        }
        let t = self.tokenize(value);
        let mut out: Vec<u8> = Vec::new();
        if self.dynamic() {
            push_len_word(&mut out, 32);
        }
        encode_token_into(self, &t, &mut out);
        proof {
            if spec_dynamic(*self) {
                assert(Seq::<u8>::empty() + len_word(32) + enc(*self, t@) =~= spec_abi_encode(
                    *self,
                    value@,
                ));
            } else {
                assert(Seq::<u8>::empty() + enc(*self, t@) =~= spec_abi_encode(*self, value@));
            }
        }
        out
    }

    /// Encodes a well-formed sequence value (a tuple or a fixed array) as a
    /// bare parameter list, with no outer wrapping.
    pub fn abi_encode_sequence(&self, value: &Value) -> (r: Vec<u8>)
        requires
            *self matches SolType::Tuple(_) || *self matches SolType::FixedArray(_, _),
            wf_type(*self),
            wf_value(*self, value@),
            spec_abi_encode_sequence(*self, value@).len() <= usize::MAX,
        ensures
            r@ == spec_abi_encode_sequence(*self, value@),
    {
        proof {
            lemma_tokenize_valid(*self, value@);
        }
        let t = self.tokenize(value);
        let mut out: Vec<u8> = Vec::new();
        match (self, &t) {
            (SolType::Tuple(ts), Token::FixedSeq(ks)) => {
                encode_group_list(ts, ks, &mut out);
                proof {
                    assert(Seq::<u8>::empty() + enc_seq_list(ts@, token_views(ks@))
                        =~= spec_abi_encode_sequence(*self, value@));
                }
            },
            (SolType::FixedArray(e, _), Token::FixedSeq(ks)) => {
                encode_group_unif(e, ks, &mut out);
                proof {
                    assert(Seq::<u8>::empty() + enc_seq_unif(**e, token_views(ks@))
                        =~= spec_abi_encode_sequence(*self, value@));
                }
            },
            _ => {
                proof {
                    assert(false);
                }
            },
        }
        out
    }

    /// Encodes a well-formed sequence value as function-call parameters; the
    /// same layout as a bare sequence.
    pub fn abi_encode_params(&self, value: &Value) -> (r: Vec<u8>)
        requires
            *self matches SolType::Tuple(_) || *self matches SolType::FixedArray(_, _),
            wf_type(*self),
            wf_value(*self, value@),
            spec_abi_encode_sequence(*self, value@).len() <= usize::MAX,
        ensures
            r@ == spec_abi_encode_sequence(*self, value@),
    {
        self.abi_encode_sequence(value)
    }

    /// Total byte count the value occupies in the standard encoding, head and
    /// tail together.
    pub fn abi_encoded_size(&self, value: &Value) -> (r: usize)
        requires
            wf_type(*self),
            wf_value(*self, value@),
            enc(*self, spec_tokenize(*self, value@)).len() <= usize::MAX,
        ensures
            r == enc(*self, spec_tokenize(*self, value@)).len(),
    {
        proof {
            lemma_tokenize_valid(*self, value@);
        }
        let t = self.tokenize(value);
        let mut out: Vec<u8> = Vec::new();
        encode_token_into(self, &t, &mut out);
        out.len()
    }

    /// Decodes a single value of this type; with `validate`, the parsed token
    /// must also pass the type's bit-pattern rules. Never panics: malformed
    /// input of any shape comes back as an error.
    pub fn abi_decode(&self, data: &[u8], validate: bool) -> (r: Result<Value, Error>)
        requires
            wf_type(*self),
        ensures
            spec_abi_decode_token(*self, data@) is None <==> r == Err::<Value, Error>(
                Error::Overrun,
            ),
            spec_abi_decode_token(*self, data@) matches Some(t) && validate && !spec_valid_token(
                *self,
                t,
            ) ==> (r matches Err(e) && e matches Error::TypeCheckFail { ty_name, .. } && ty_name@
                == spec_name(*self)),
            spec_abi_decode_token(*self, data@) is Some && (!validate || spec_valid_token(
                *self,
                spec_abi_decode_token(*self, data@)->Some_0,
            )) ==> (r matches Ok(v) && v@ == spec_detokenize(
                *self,
                spec_abi_decode_token(*self, data@)->Some_0,
            )),
    {
        match decode_elem(self, data, 0, 0) {
            Err(e) => Err(e),
            Ok(t) => {
                proof {
                    lemma_dec_matches(*self, data@, 0, 0);
                }
                crate::token_ops::check_decode(self, &t, validate)
            },
        }
    }

    /// Decodes a sequence value (a tuple or a fixed array) from a bare
    /// parameter-list encoding.
    pub fn abi_decode_sequence(&self, data: &[u8], validate: bool) -> (r: Result<Value, Error>)
        requires
            *self matches SolType::Tuple(_) || *self matches SolType::FixedArray(_, _),
            wf_type(*self),
        ensures
            spec_abi_decode_sequence_token(*self, data@) is None <==> r == Err::<Value, Error>(
                Error::Overrun,
            ),
            spec_abi_decode_sequence_token(*self, data@) matches Some(t) && validate
                && !spec_valid_token(*self, t) ==> (r matches Err(e) && e matches
                Error::TypeCheckFail { ty_name, .. } && ty_name@ == spec_name(*self)),
            spec_abi_decode_sequence_token(*self, data@) is Some && (!validate
                || spec_valid_token(*self, spec_abi_decode_sequence_token(*self, data@)->Some_0))
                ==> (r matches Ok(v) && v@ == spec_detokenize(
                *self,
                spec_abi_decode_sequence_token(*self, data@)->Some_0,
            )),
    {
        match self {
            SolType::Tuple(ts) => {
                proof {
                    assert(ts@.skip(0) =~= ts@);
                }
                match decode_list(ts, 0, data, 0, 0) {
                    Err(e) => Err(e),
                    Ok(ks) => {
                        let t = Token::FixedSeq(ks);
                        proof {
                            lemma_dec_list_matches(ts@, data@, 0, 0);
                        }
                        crate::token_ops::check_decode(self, &t, validate)
                    },
                }
            },
            SolType::FixedArray(e, n) => {
                match decode_unif(e, *n, data, 0, 0) {
                    Err(er) => Err(er),
                    Ok(ks) => {
                        let t = Token::FixedSeq(ks);
                        proof {
                            lemma_dec_unif_matches(**e, *n as nat, data@, 0, 0);
                        }
                        crate::token_ops::check_decode(self, &t, validate)
                    },
                }
            },
            _ => {
                proof {
                    assert(false);
                }
                Err(Error::Overrun)
            },
        }
    }

    /// Decodes function-call parameters; the same layout as a bare sequence.
    pub fn abi_decode_params(&self, data: &[u8], validate: bool) -> (r: Result<Value, Error>)
        requires
            *self matches SolType::Tuple(_) || *self matches SolType::FixedArray(_, _),
            wf_type(*self),
        ensures
            spec_abi_decode_sequence_token(*self, data@) is None <==> r == Err::<Value, Error>(
                Error::Overrun,
            ),
            spec_abi_decode_sequence_token(*self, data@) matches Some(t) && validate
                && !spec_valid_token(*self, t) ==> (r matches Err(e) && e matches
                Error::TypeCheckFail { ty_name, .. } && ty_name@ == spec_name(*self)),
            spec_abi_decode_sequence_token(*self, data@) is Some && (!validate
                || spec_valid_token(*self, spec_abi_decode_sequence_token(*self, data@)->Some_0))
                ==> (r matches Ok(v) && v@ == spec_detokenize(
                *self,
                spec_abi_decode_sequence_token(*self, data@)->Some_0,
            )),
    {
        self.abi_decode_sequence(data, validate)
    }
}

} // verus!
