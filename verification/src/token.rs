use vstd::prelude::*;
use crate::ty::SolType;

verus! {

/// A type-shaped intermediate value between native values and wire bytes.
/// `Word` is a 32-byte static leaf; `PackedBytes` a dynamic leaf carrying raw
/// content; `FixedSeq` the children of a tuple or fixed-size array; `DynSeq`
/// the children of a dynamic array.
#[derive(Debug, PartialEq, Eq)]
pub enum Token {
    Word(Vec<u8>),
    PackedBytes(Vec<u8>),
    FixedSeq(Vec<Token>),
    DynSeq(Vec<Token>),
}

/// The mathematical model of a `Token`.
pub enum TokenV {
    Word(Seq<u8>),
    PackedBytes(Seq<u8>),
    FixedSeq(Seq<TokenV>),
    DynSeq(Seq<TokenV>),
}

pub open spec fn token_view(t: Token) -> TokenV
    decreases t, 0int,
{
    match t {
        Token::Word(w) => TokenV::Word(w@),
        Token::PackedBytes(b) => TokenV::PackedBytes(b@),
        Token::FixedSeq(ks) => TokenV::FixedSeq(token_views(ks@)),
        Token::DynSeq(ks) => TokenV::DynSeq(token_views(ks@)),
    }
}

pub open spec fn token_views(ks: Seq<Token>) -> Seq<TokenV>
    decreases ks, 1int,
{
    if ks.len() == 0 {
        Seq::empty()
    } else {
        token_views(ks.drop_last()).push(token_view(ks.last()))
    }
}

pub proof fn lemma_token_views_index(ks: Seq<Token>)
    ensures
        token_views(ks).len() == ks.len(),
        forall|i: int| 0 <= i < ks.len() ==> token_views(ks)[i] == token_view(ks[i]),
    decreases ks.len(),
{
    if ks.len() > 0 {
        lemma_token_views_index(ks.drop_last());
    }
}

impl View for Token {
    type V = TokenV;

    open spec fn view(&self) -> TokenV {
        token_view(*self)
    }
}

/// A native value, as plain data: integers as their 32-byte big-endian words,
/// an address as its 20 bytes, a string as its UTF-8 bytes, and composites as
/// lists whose interpretation the type fixes.
#[derive(Debug, PartialEq, Eq)]
pub enum Value {
    Bool(bool),
    Uint(Vec<u8>),
    Int(Vec<u8>),
    Address(Vec<u8>),
    FixedBytes(Vec<u8>),
    Bytes(Vec<u8>),
    Str(Vec<u8>),
    List(Vec<Value>),
}

/// The mathematical model of a `Value`.
pub enum ValueV {
    Bool(bool),
    Uint(Seq<u8>),
    Int(Seq<u8>),
    Address(Seq<u8>),
    FixedBytes(Seq<u8>),
    Bytes(Seq<u8>),
    Str(Seq<u8>),
    List(Seq<ValueV>),
}

pub open spec fn value_view(v: Value) -> ValueV
    decreases v, 0int,
{
    match v {
        Value::Bool(b) => ValueV::Bool(b),
        Value::Uint(w) => ValueV::Uint(w@),
        Value::Int(w) => ValueV::Int(w@),
        Value::Address(a) => ValueV::Address(a@),
        Value::FixedBytes(b) => ValueV::FixedBytes(b@),
        Value::Bytes(b) => ValueV::Bytes(b@),
        Value::Str(b) => ValueV::Str(b@),
        Value::List(xs) => ValueV::List(value_views(xs@)),
    }
}

pub open spec fn value_views(xs: Seq<Value>) -> Seq<ValueV>
    decreases xs, 1int,
{
    if xs.len() == 0 {
        Seq::empty()
    } else {
        value_views(xs.drop_last()).push(value_view(xs.last()))
    }
}

pub proof fn lemma_value_views_index(xs: Seq<Value>)
    ensures
        value_views(xs).len() == xs.len(),
        forall|i: int| 0 <= i < xs.len() ==> value_views(xs)[i] == value_view(xs[i]),
    decreases xs.len(),
{
    if xs.len() > 0 {
        lemma_value_views_index(xs.drop_last());
    }
}

impl View for Value {
    type V = ValueV;

    open spec fn view(&self) -> ValueV {
        value_view(*self)
    }
}

// ---------------------------------------------------------------------------
// per-word bit-pattern rules
// ---------------------------------------------------------------------------

/// A boolean word: all bytes zero but the last, which is 0 or 1.
pub open spec fn valid_bool_word(w: Seq<u8>) -> bool {
    &&& forall|i: int| 0 <= i < 31 ==> w[i] == 0
    &&& (w[31] == 0 || w[31] == 1)
}

/// An unsigned integer word of `bits` bits: the unused leading bytes are zero.
pub open spec fn valid_uint_word(w: Seq<u8>, bits: nat) -> bool {
    forall|i: int| 0 <= i < 32 - bits / 8 ==> w[i] == 0
}

/// A signed integer word of `bits` bits: the unused leading bytes carry the
/// sign extension of the value's top bit.
pub open spec fn valid_int_word(w: Seq<u8>, bits: nat) -> bool {
    let k = 32 - bits / 8;
    forall|i: int|
        0 <= i < k && k < 32 ==> w[i] == (if w[k as int] >= 128 {
            255u8
        } else {
            0u8
        })
}

/// An address word: the high 12 bytes are zero.
pub open spec fn valid_address_word(w: Seq<u8>) -> bool {
    forall|i: int| 0 <= i < 12 ==> w[i] == 0
}

/// A `bytesN` word: bytes beyond position `n` are zero.
pub open spec fn valid_fixed_bytes_word(w: Seq<u8>, n: nat) -> bool {
    forall|i: int| n <= i < 32 ==> w[i] == 0
}

// ---------------------------------------------------------------------------
// shape and validity of tokens
// ---------------------------------------------------------------------------

/// The token has exactly the tree shape the type calls for; bit patterns are
/// not inspected.
pub open spec fn token_matches(ty: SolType, t: TokenV) -> bool
    decreases ty, t, 0int,
{
    match ty {
        SolType::Bool => t matches TokenV::Word(w) && w.len() == 32,
        SolType::Uint(_) => t matches TokenV::Word(w) && w.len() == 32,
        SolType::Int(_) => t matches TokenV::Word(w) && w.len() == 32,
        SolType::Address => t matches TokenV::Word(w) && w.len() == 32,
        SolType::FixedBytes(_) => t matches TokenV::Word(w) && w.len() == 32,
        SolType::Bytes => t matches TokenV::PackedBytes(_),
        SolType::Str => t matches TokenV::PackedBytes(_),
        SolType::Array(e) => t matches TokenV::DynSeq(ks) && tokens_match_unif(*e, ks),
        SolType::FixedArray(e, n) => t matches TokenV::FixedSeq(ks) && ks.len() == n
            && tokens_match_unif(*e, ks),
        SolType::Tuple(ts) => t matches TokenV::FixedSeq(ks) && tokens_match_list(ts@, ks),
    }
}

pub open spec fn tokens_match_unif(e: SolType, ks: Seq<TokenV>) -> bool
    decreases e, ks, 1int,
{
    if ks.len() == 0 {
        true
    } else {
        tokens_match_unif(e, ks.drop_last()) && token_matches(e, ks.last())
    }
}

pub open spec fn tokens_match_list(tys: Seq<SolType>, ks: Seq<TokenV>) -> bool
    decreases tys, ks, 1int,
{
    &&& tys.len() == ks.len()
    &&& if tys.len() == 0 {
        true
    } else {
        tokens_match_list(tys.drop_last(), ks.drop_last()) && token_matches(
            tys.last(),
            ks.last(),
        )
    }
}

/// The token has the right shape and every leaf obeys the type's bit-pattern
/// rules.
pub open spec fn spec_valid_token(ty: SolType, t: TokenV) -> bool
    decreases ty, t, 0int,
{
    match ty {
        SolType::Bool => t matches TokenV::Word(w) && w.len() == 32 && valid_bool_word(w),
        SolType::Uint(bits) => t matches TokenV::Word(w) && w.len() == 32 && valid_uint_word(
            w,
            bits as nat,
        ),
        SolType::Int(bits) => t matches TokenV::Word(w) && w.len() == 32 && valid_int_word(
            w,
            bits as nat,
        ),
        SolType::Address => t matches TokenV::Word(w) && w.len() == 32 && valid_address_word(w),
        SolType::FixedBytes(n) => t matches TokenV::Word(w) && w.len() == 32
            && valid_fixed_bytes_word(w, n as nat),
        SolType::Bytes => t matches TokenV::PackedBytes(_),
        SolType::Str => t matches TokenV::PackedBytes(_),
        SolType::Array(e) => t matches TokenV::DynSeq(ks) && tokens_valid_unif(*e, ks),
        SolType::FixedArray(e, n) => t matches TokenV::FixedSeq(ks) && ks.len() == n
            && tokens_valid_unif(*e, ks),
        SolType::Tuple(ts) => t matches TokenV::FixedSeq(ks) && tokens_valid_list(ts@, ks),
    }
}

pub open spec fn tokens_valid_unif(e: SolType, ks: Seq<TokenV>) -> bool
    decreases e, ks, 1int,
{
    if ks.len() == 0 {
        true
    } else {
        tokens_valid_unif(e, ks.drop_last()) && spec_valid_token(e, ks.last())
    }
}

pub open spec fn tokens_valid_list(tys: Seq<SolType>, ks: Seq<TokenV>) -> bool
    decreases tys, ks, 1int,
{
    &&& tys.len() == ks.len()
    &&& if tys.len() == 0 {
        true
    } else {
        tokens_valid_list(tys.drop_last(), ks.drop_last()) && spec_valid_token(
            tys.last(),
            ks.last(),
        )
    }
}

// ---------------------------------------------------------------------------
// well-formed native values
// ---------------------------------------------------------------------------

/// The value has the shape and bit patterns its type calls for; `tokenize`
/// is total on such values.
pub open spec fn wf_value(ty: SolType, v: ValueV) -> bool
    decreases ty, v, 0int,
{
    match ty {
        SolType::Bool => v matches ValueV::Bool(_),
        SolType::Uint(bits) => v matches ValueV::Uint(w) && w.len() == 32 && valid_uint_word(
            w,
            bits as nat,
        ),
        SolType::Int(bits) => v matches ValueV::Int(w) && w.len() == 32 && valid_int_word(
            w,
            bits as nat,
        ),
        SolType::Address => v matches ValueV::Address(a) && a.len() == 20,
        SolType::FixedBytes(n) => v matches ValueV::FixedBytes(b) && b.len() == n,
        SolType::Bytes => v matches ValueV::Bytes(_),
        SolType::Str => v matches ValueV::Str(_),
        SolType::Array(e) => v matches ValueV::List(xs) && wf_values_unif(*e, xs),
        SolType::FixedArray(e, n) => v matches ValueV::List(xs) && xs.len() == n && wf_values_unif(
            *e,
            xs,
        ),
        SolType::Tuple(ts) => v matches ValueV::List(xs) && wf_values_list(ts@, xs),
    }
}

pub open spec fn wf_values_unif(e: SolType, xs: Seq<ValueV>) -> bool
    decreases e, xs, 1int,
{
    if xs.len() == 0 {
        true
    } else {
        wf_values_unif(e, xs.drop_last()) && wf_value(e, xs.last())
    }
}

pub open spec fn wf_values_list(tys: Seq<SolType>, xs: Seq<ValueV>) -> bool
    decreases tys, xs, 1int,
{
    &&& tys.len() == xs.len()
    &&& if tys.len() == 0 {
        true
    } else {
        wf_values_list(tys.drop_last(), xs.drop_last()) && wf_value(tys.last(), xs.last())
    }
}

// ---------------------------------------------------------------------------
// tokenize
// ---------------------------------------------------------------------------

/// The token a well-formed value of the type turns into.
pub open spec fn spec_tokenize(ty: SolType, v: ValueV) -> TokenV
    decreases ty, v, 0int,
{
    match ty {
        SolType::Bool => TokenV::Word(
            crate::words::zeros(31).push(
                match v {
                    ValueV::Bool(b) => if b { 1u8 } else { 0u8 },
                    _ => 0u8,
                },
            ),
        ),
        SolType::Uint(_) => TokenV::Word(
            match v {
                ValueV::Uint(w) => w,
                _ => crate::words::zeros(32),
            },
        ),
        SolType::Int(_) => TokenV::Word(
            match v {
                ValueV::Int(w) => w,
                _ => crate::words::zeros(32),
            },
        ),
        SolType::Address => TokenV::Word(
            match v {
                ValueV::Address(a) => crate::words::zeros(12) + a,
                _ => crate::words::zeros(32),
            },
        ),
        SolType::FixedBytes(n) => TokenV::Word(
            match v {
                ValueV::FixedBytes(b) => b + crate::words::zeros((32 - n) as nat),
                _ => crate::words::zeros(32),
            },
        ),
        SolType::Bytes => TokenV::PackedBytes(
            match v {
                ValueV::Bytes(b) => b,
                _ => Seq::empty(),
            },
        ),
        SolType::Str => TokenV::PackedBytes(
            match v {
                ValueV::Str(b) => b,
                _ => Seq::empty(),
            },
        ),
        SolType::Array(e) => TokenV::DynSeq(
            match v {
                ValueV::List(xs) => tokenize_unif(*e, xs),
                _ => Seq::empty(),
            },
        ),
        SolType::FixedArray(e, _) => TokenV::FixedSeq(
            match v {
                ValueV::List(xs) => tokenize_unif(*e, xs),
                _ => Seq::empty(),
            },
        ),
        SolType::Tuple(ts) => TokenV::FixedSeq(
            match v {
                ValueV::List(xs) => tokenize_list(ts@, xs),
                _ => Seq::empty(),
            },
        ),
    }
}

pub open spec fn tokenize_unif(e: SolType, xs: Seq<ValueV>) -> Seq<TokenV>
    decreases e, xs, 1int,
{
    if xs.len() == 0 {
        Seq::empty()
    } else {
        tokenize_unif(e, xs.drop_last()).push(spec_tokenize(e, xs.last()))
    }
}

pub open spec fn tokenize_list(tys: Seq<SolType>, xs: Seq<ValueV>) -> Seq<TokenV>
    decreases tys, xs, 1int,
{
    if tys.len() == 0 || xs.len() == 0 {
        Seq::empty()
    } else {
        tokenize_list(tys.drop_last(), xs.drop_last()).push(
            spec_tokenize(tys.last(), xs.last()),
        )
    }
}

// ---------------------------------------------------------------------------
// detokenize
// ---------------------------------------------------------------------------

pub open spec fn word_nonzero(w: Seq<u8>) -> bool {
    exists|i: int| 0 <= i < w.len() && w[i] != 0
}

/// The native value a shape-matching token turns back into. A boolean word
/// reads as true exactly when it is nonzero; integer words are taken as they
/// stand, so an invalid bit pattern still detokenizes when validation is
/// skipped.
pub open spec fn spec_detokenize(ty: SolType, t: TokenV) -> ValueV
    decreases ty, t, 0int,
{
    match ty {
        SolType::Bool => ValueV::Bool(
            match t {
                TokenV::Word(w) => word_nonzero(w),
                _ => false,
            },
        ),
        SolType::Uint(_) => ValueV::Uint(
            match t {
                TokenV::Word(w) => w,
                _ => Seq::empty(),
            },
        ),
        SolType::Int(_) => ValueV::Int(
            match t {
                TokenV::Word(w) => w,
                _ => Seq::empty(),
            },
        ),
        SolType::Address => ValueV::Address(
            match t {
                TokenV::Word(w) => w.subrange(12, 32),
                _ => Seq::empty(),
            },
        ),
        SolType::FixedBytes(n) => ValueV::FixedBytes(
            match t {
                TokenV::Word(w) => w.subrange(0, n as int),
                _ => Seq::empty(),
            },
        ),
        SolType::Bytes => ValueV::Bytes(
            match t {
                TokenV::PackedBytes(b) => b,
                _ => Seq::empty(),
            },
        ),
        SolType::Str => ValueV::Str(
            match t {
                TokenV::PackedBytes(b) => b,
                _ => Seq::empty(),
            },
        ),
        SolType::Array(e) => ValueV::List(
            match t {
                TokenV::DynSeq(ks) => detokenize_unif(*e, ks),
                _ => Seq::empty(),
            },
        ),
        SolType::FixedArray(e, _) => ValueV::List(
            match t {
                TokenV::FixedSeq(ks) => detokenize_unif(*e, ks),
                _ => Seq::empty(),
            },
        ),
        SolType::Tuple(ts) => ValueV::List(
            match t {
                TokenV::FixedSeq(ks) => detokenize_list(ts@, ks),
                _ => Seq::empty(),
            },
        ),
    }
}

pub open spec fn detokenize_unif(e: SolType, ks: Seq<TokenV>) -> Seq<ValueV>
    decreases e, ks, 1int,
{
    if ks.len() == 0 {
        Seq::empty()
    } else {
        detokenize_unif(e, ks.drop_last()).push(spec_detokenize(e, ks.last()))
    }
}

pub open spec fn detokenize_list(tys: Seq<SolType>, ks: Seq<TokenV>) -> Seq<ValueV>
    decreases tys, ks, 1int,
{
    if tys.len() == 0 || ks.len() == 0 {
        Seq::empty()
    } else {
        detokenize_list(tys.drop_last(), ks.drop_last()).push(
            spec_detokenize(tys.last(), ks.last()),
        )
    }
}

// ---------------------------------------------------------------------------
// round trip at the token level
// ---------------------------------------------------------------------------

/// A well-formed value tokenizes to a token of its type's shape, and that
/// token passes validation.
pub proof fn lemma_tokenize_valid(ty: SolType, v: ValueV)
    requires
        crate::ty::wf_type(ty),
        wf_value(ty, v),
    ensures
        token_matches(ty, spec_tokenize(ty, v)),
        spec_valid_token(ty, spec_tokenize(ty, v)),
    decreases ty, v, 0int,
{
    match ty {
        SolType::Bool => {
            let w = crate::words::zeros(31).push(
                if v matches ValueV::Bool(b) && b {
                    1u8
                } else {
                    0u8
                },
            );
            assert(w.len() == 32);
            assert(valid_bool_word(w));
        },
        SolType::Address => {
            if let ValueV::Address(a) = v {
                let w = crate::words::zeros(12) + a;
                assert(w.len() == 32);
                assert(valid_address_word(w));
            }
        },
        SolType::FixedBytes(n) => {
            if let ValueV::FixedBytes(b) = v {
                let w = b + crate::words::zeros((32 - n) as nat);
                assert(w.len() == 32);
                assert(valid_fixed_bytes_word(w, n as nat));
            }
        },
        SolType::Array(e) => {
            if let ValueV::List(xs) = v {
                lemma_tokenize_valid_unif(*e, xs);
            }
        },
        SolType::FixedArray(e, n) => {
            if let ValueV::List(xs) = v {
                lemma_tokenize_valid_unif(*e, xs);
                lemma_tokenize_unif_len(*e, xs);
            }
        },
        SolType::Tuple(ts) => {
            if let ValueV::List(xs) = v {
                lemma_tokenize_valid_list(ts@, xs);
            }
        },
        _ => {},
    }
}

pub proof fn lemma_tokenize_unif_len(e: SolType, xs: Seq<ValueV>)
    ensures
        tokenize_unif(e, xs).len() == xs.len(),
    decreases xs.len(),
{
    if xs.len() > 0 {
        lemma_tokenize_unif_len(e, xs.drop_last());
    }
}

pub proof fn lemma_tokenize_list_len(tys: Seq<SolType>, xs: Seq<ValueV>)
    requires
        tys.len() == xs.len(),
    ensures
        tokenize_list(tys, xs).len() == xs.len(),
    decreases xs.len(),
{
    if xs.len() > 0 {
        lemma_tokenize_list_len(tys.drop_last(), xs.drop_last());
    }
}

proof fn lemma_tokenize_valid_unif(e: SolType, xs: Seq<ValueV>)
    requires
        crate::ty::wf_type(e),
        wf_values_unif(e, xs),
    ensures
        tokens_match_unif(e, tokenize_unif(e, xs)),
        tokens_valid_unif(e, tokenize_unif(e, xs)),
    decreases e, xs, 1int,
{
    if xs.len() > 0 {
        lemma_tokenize_valid_unif(e, xs.drop_last());
        lemma_tokenize_valid(e, xs.last());
        let ks = tokenize_unif(e, xs);
        assert(ks.drop_last() =~= tokenize_unif(e, xs.drop_last()));
    }
}

proof fn lemma_tokenize_valid_list(tys: Seq<SolType>, xs: Seq<ValueV>)
    requires
        crate::ty::wf_type_list(tys),
        wf_values_list(tys, xs),
    ensures
        tokens_match_list(tys, tokenize_list(tys, xs)),
        tokens_valid_list(tys, tokenize_list(tys, xs)),
    decreases tys, xs, 1int,
{
    if tys.len() > 0 {
        lemma_wf_type_list_drop_last(tys);
        lemma_tokenize_valid_list(tys.drop_last(), xs.drop_last());
        lemma_tokenize_valid(tys.last(), xs.last());
        let ks = tokenize_list(tys, xs);
        assert(ks.drop_last() =~= tokenize_list(tys.drop_last(), xs.drop_last()));
        lemma_tokenize_list_len(tys, xs);
    }
}

/// Well-formedness of a type list passes to every prefix and element.
pub proof fn lemma_wf_type_list_drop_last(tys: Seq<SolType>)
    requires
        crate::ty::wf_type_list(tys),
        tys.len() > 0,
    ensures
        crate::ty::wf_type_list(tys.drop_last()),
        crate::ty::wf_type(tys.last()),
    decreases tys.len(),
{
    if tys.len() > 1 {
        assert(tys.drop_first().drop_last() =~= tys.drop_last().drop_first());
        lemma_wf_type_list_drop_last(tys.drop_first());
        assert(tys.drop_last()[0] == tys[0]);
    } else {
        assert(tys.drop_last() =~= Seq::<SolType>::empty());
    }
}

/// Detokenizing the token of a well-formed value gives the value back.
pub proof fn lemma_detokenize_tokenize(ty: SolType, v: ValueV)
    requires
        crate::ty::wf_type(ty),
        wf_value(ty, v),
    ensures
        spec_detokenize(ty, spec_tokenize(ty, v)) == v,
    decreases ty, v, 0int,
{
    match ty {
        SolType::Bool => {
            if let ValueV::Bool(b) = v {
                let w = crate::words::zeros(31).push(
                    if b {
                        1u8
                    } else {
                        0u8
                    },
                );
                if b {
                    assert(w[31] == 1);
                    assert(word_nonzero(w));
                } else {
                    assert forall|i: int| 0 <= i < w.len() implies w[i] == 0 by {}
                    assert(!word_nonzero(w));
                }
            }
        },
        SolType::Address => {
            if let ValueV::Address(a) = v {
                assert((crate::words::zeros(12) + a).subrange(12, 32) =~= a);
            }
        },
        SolType::FixedBytes(n) => {
            if let ValueV::FixedBytes(b) = v {
                assert((b + crate::words::zeros((32 - n) as nat)).subrange(0, n as int) =~= b);
            }
        },
        SolType::Array(e) => {
            if let ValueV::List(xs) = v {
                lemma_detokenize_tokenize_unif(*e, xs);
            }
        },
        SolType::FixedArray(e, _) => {
            if let ValueV::List(xs) = v {
                lemma_detokenize_tokenize_unif(*e, xs);
            }
        },
        SolType::Tuple(ts) => {
            if let ValueV::List(xs) = v {
                lemma_detokenize_tokenize_list(ts@, xs);
            }
        },
        _ => {},
    }
}

proof fn lemma_detokenize_tokenize_unif(e: SolType, xs: Seq<ValueV>)
    requires
        crate::ty::wf_type(e),
        wf_values_unif(e, xs),
    ensures
        detokenize_unif(e, tokenize_unif(e, xs)) == xs,
    decreases e, xs, 1int,
{
    if xs.len() > 0 {
        lemma_detokenize_tokenize_unif(e, xs.drop_last());
        lemma_detokenize_tokenize(e, xs.last());
        let ks = tokenize_unif(e, xs);
        lemma_tokenize_unif_len(e, xs);
        assert(ks.drop_last() =~= tokenize_unif(e, xs.drop_last()));
        assert(detokenize_unif(e, ks) =~= xs);
    } else {
        assert(detokenize_unif(e, tokenize_unif(e, xs)) =~= xs);
    }
}

proof fn lemma_detokenize_tokenize_list(tys: Seq<SolType>, xs: Seq<ValueV>)
    requires
        crate::ty::wf_type_list(tys),
        wf_values_list(tys, xs),
    ensures
        detokenize_list(tys, tokenize_list(tys, xs)) == xs,
    decreases tys, xs, 1int,
{
    if tys.len() > 0 {
        lemma_wf_type_list_drop_last(tys);
        lemma_detokenize_tokenize_list(tys.drop_last(), xs.drop_last());
        lemma_detokenize_tokenize(tys.last(), xs.last());
        let ks = tokenize_list(tys, xs);
        lemma_tokenize_list_len(tys, xs);
        assert(ks.drop_last() =~= tokenize_list(tys.drop_last(), xs.drop_last()));
        assert(detokenize_list(tys, ks) =~= xs);
    } else {
        assert(detokenize_list(tys, tokenize_list(tys, xs)) =~= xs);
    }
}

} // verus!
