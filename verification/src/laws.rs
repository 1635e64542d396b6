use vstd::prelude::*;
use crate::api::{spec_abi_encode, spec_abi_decode_token, spec_abi_encode_sequence,
    spec_abi_decode_sequence_token};
use crate::decode::{dec_elem, dec_tail, dec_tail_bytes, dec_unif, dec_list};
use crate::encode::enc_seq_list;
use crate::encode::{enc, enc_heads_unif, enc_heads_list, enc_tails_unif, enc_tails_list,
    pad_right, pad32_len, lemma_enc_static_len, lemma_heads_len_unif, lemma_heads_len_list,
    lemma_match_unif_drop_first, lemma_match_list_drop_first};
use crate::token::{TokenV, ValueV, token_matches, tokens_match_unif, tokens_match_list,
    spec_tokenize, spec_detokenize, spec_valid_token, wf_value, lemma_tokenize_valid,
    lemma_detokenize_tokenize};
use crate::ty::{SolType, spec_dynamic, head_width, head_width_list, wf_type};
use crate::words::{be_val, len_word, zeros, lemma_be_bytes_len, lemma_be_val_be_bytes,
    lemma_pow256_8, lemma_pow256_mono};

verus! {

/// Every sequence inside the token is short enough to count with a machine
/// word; true of every token an executable value produces.
pub open spec fn bounded_token(t: TokenV) -> bool
    decreases t, 0int,
{
    match t {
        TokenV::Word(_) => true,
        TokenV::PackedBytes(_) => true,
        TokenV::FixedSeq(ks) => ks.len() <= usize::MAX && bounded_tokens(ks),
        TokenV::DynSeq(ks) => ks.len() <= usize::MAX && bounded_tokens(ks),
    }
}

pub open spec fn bounded_tokens(ks: Seq<TokenV>) -> bool
    decreases ks, 1int,
{
    if ks.len() == 0 {
        true
    } else {
        bounded_tokens(ks.drop_last()) && bounded_token(ks.last())
    }
}

/// Every list inside the value is short enough to count with a machine word.
pub open spec fn bounded_value(v: ValueV) -> bool
    decreases v, 0int,
{
    match v {
        ValueV::List(xs) => xs.len() <= usize::MAX && bounded_values(xs),
        _ => true,
    }
}

pub open spec fn bounded_values(xs: Seq<ValueV>) -> bool
    decreases xs, 1int,
{
    if xs.len() == 0 {
        true
    } else {
        bounded_values(xs.drop_last()) && bounded_value(xs.last())
    }
}

pub proof fn lemma_bounded_tokens_drop_first(ks: Seq<TokenV>)
    requires
        bounded_tokens(ks),
        ks.len() > 0,
    ensures
        bounded_token(ks[0]),
        bounded_tokens(ks.drop_first()),
    decreases ks.len(),
{
    if ks.len() > 1 {
        assert(ks.drop_last()[0] == ks[0]);
        lemma_bounded_tokens_drop_first(ks.drop_last());
        assert(ks.drop_first().drop_last() =~= ks.drop_last().drop_first());
        assert(ks.drop_first().last() == ks.last());
    } else {
        assert(ks.last() == ks[0]);
        assert(ks.drop_first().len() == 0);
    }
}

pub proof fn lemma_bounded_values_drop_last(xs: Seq<ValueV>)
    requires
        bounded_values(xs),
        xs.len() > 0,
    ensures
        bounded_value(xs.last()),
        bounded_values(xs.drop_last()),
{
}

/// The token of a bounded well-formed value is itself bounded.
pub proof fn lemma_tokenize_bounded(ty: SolType, v: ValueV)
    requires
        bounded_value(v),
    ensures
        bounded_token(spec_tokenize(ty, v)),
    decreases ty, v, 0int,
{
    match ty {
        SolType::Array(e) => {
            if let ValueV::List(xs) = v {
                lemma_tokenize_bounded_unif(*e, xs);
                crate::token::lemma_tokenize_unif_len(*e, xs);
            }
        },
        SolType::FixedArray(e, _) => {
            if let ValueV::List(xs) = v {
                lemma_tokenize_bounded_unif(*e, xs);
                crate::token::lemma_tokenize_unif_len(*e, xs);
            }
        },
        SolType::Tuple(ts) => {
            if let ValueV::List(xs) = v {
                lemma_tokenize_bounded_list(ts@, xs);
                lemma_tokenize_list_len_le(ts@, xs);
            }
        },
        _ => {},
    }
}

proof fn lemma_tokenize_list_len_le(tys: Seq<SolType>, xs: Seq<ValueV>)
    ensures
        crate::token::tokenize_list(tys, xs).len() <= xs.len(),
    decreases xs.len(),
{
    if tys.len() > 0 && xs.len() > 0 {
        lemma_tokenize_list_len_le(tys.drop_last(), xs.drop_last());
    }
}

proof fn lemma_tokenize_bounded_unif(e: SolType, xs: Seq<ValueV>)
    requires
        bounded_values(xs),
    ensures
        bounded_tokens(crate::token::tokenize_unif(e, xs)),
    decreases e, xs, 1int,
{
    if xs.len() > 0 {
        lemma_bounded_values_drop_last(xs);
        lemma_tokenize_bounded_unif(e, xs.drop_last());
        lemma_tokenize_bounded(e, xs.last());
        let ks = crate::token::tokenize_unif(e, xs);
        assert(ks.drop_last() =~= crate::token::tokenize_unif(e, xs.drop_last()));
    }
}

proof fn lemma_tokenize_bounded_list(tys: Seq<SolType>, xs: Seq<ValueV>)
    requires
        bounded_values(xs),
    ensures
        bounded_tokens(crate::token::tokenize_list(tys, xs)),
    decreases tys, xs, 1int,
{
    if tys.len() > 0 && xs.len() > 0 {
        lemma_bounded_values_drop_last(xs);
        lemma_tokenize_bounded_list(tys.drop_last(), xs.drop_last());
        lemma_tokenize_bounded(tys.last(), xs.last());
        let ks = crate::token::tokenize_list(tys, xs);
        assert(ks.drop_last() =~= crate::token::tokenize_list(tys.drop_last(), xs.drop_last()));
    }
}

/// A machine-sized offset or length word reads back as itself.
proof fn lemma_len_word_val(n: nat)
    requires
        n <= usize::MAX,
    ensures
        len_word(n).len() == 32,
        be_val(len_word(n)) == n,
{
    lemma_be_bytes_len(n, 32);
    lemma_pow256_8();
    lemma_pow256_mono(8, 32);
    assert(usize::MAX <= u64::MAX);
    lemma_be_val_be_bytes(n, 32);
}

/// A slice of a slice of `data`, re-expressed against `data` itself.
proof fn lemma_subrange_split(data: Seq<u8>, p: int, a: Seq<u8>, b: Seq<u8>)
    requires
        0 <= p,
        p + a.len() + b.len() <= data.len(),
        data.subrange(p, p + a.len() + b.len()) == a + b,
    ensures
        data.subrange(p, p + a.len()) == a,
        data.subrange(p + a.len(), p + a.len() + b.len()) == b,
{
    assert(data.subrange(p, p + a.len()) =~= a) by {
        assert forall|i: int| 0 <= i < a.len() implies data[p + i] == a[i] by {
            assert((a + b)[i] == a[i]);
            assert(data.subrange(p, p + a.len() + b.len())[i] == data[p + i]);
        }
    };
    assert(data.subrange(p + a.len(), p + a.len() + b.len()) =~= b) by {
        assert forall|i: int| 0 <= i < b.len() implies data[p + a.len() + i] == b[i] by {
            assert((a + b)[a.len() + i] == b[i]);
            assert(data.subrange(p, p + a.len() + b.len())[a.len() + i] == data[p + a.len() + i]);
        }
    };
}

/// A static element decodes from its in-place bytes.
proof fn lemma_dec_enc_static(ty: SolType, t: TokenV, data: Seq<u8>, base: nat, pos: nat)
    requires
        !spec_dynamic(ty),
        token_matches(ty, t),
        bounded_token(t),
        pos + enc(ty, t).len() <= data.len(),
        data.subrange(pos as int, pos as int + enc(ty, t).len()) == enc(ty, t),
        data.len() <= usize::MAX,
    ensures
        dec_elem(ty, data, base, pos) == Some(t),
    decreases ty, t, 1int,
{
    match ty {
        SolType::Tuple(ts) => {
            if let TokenV::FixedSeq(ks) = t {
                crate::encode::lemma_head_width_list_static(ts@);
                lemma_heads_len_list(ts@, ks, head_width_list(ts@));
                crate::encode::lemma_tails_empty_list(ts@, ks);
                assert(enc(ty, t).len() == enc_heads_list(ts@, ks, head_width_list(ts@)).len());
                assert(data.subrange(pos as int, pos as int + enc_heads_list(
                    ts@,
                    ks,
                    head_width_list(ts@),
                ).len()) =~= enc_heads_list(ts@, ks, head_width_list(ts@)));
                lemma_dec_enc_static_list(ts@, ks, data, base, pos, head_width_list(ts@));
            }
        },
        SolType::FixedArray(e, n) => {
            if let TokenV::FixedSeq(ks) = t {
                lemma_heads_len_unif(*e, ks, (ks.len() * head_width(*e)) as nat);
                crate::encode::lemma_tails_empty_unif(*e, ks);
                assert(enc(ty, t).len() == enc_heads_unif(
                    *e,
                    ks,
                    (ks.len() * head_width(*e)) as nat,
                ).len());
                assert(data.subrange(pos as int, pos as int + enc_heads_unif(
                    *e,
                    ks,
                    (ks.len() * head_width(*e)) as nat,
                ).len()) =~= enc_heads_unif(*e, ks, (ks.len() * head_width(*e)) as nat));
                lemma_dec_enc_static_unif(
                    *e,
                    ks,
                    data,
                    base,
                    pos,
                    (ks.len() * head_width(*e)) as nat,
                );
                assert(dec_unif(*e, n as nat, data, base, pos) == Some(ks));
            }
        },
        _ => {
            if let TokenV::Word(w) = t {
                assert(enc(ty, t) == w);
            }
        },
    }
}

/// All-static member lists decode member by member from their concatenated
/// in-place bytes; `off0` is immaterial since no offset word is ever written
/// or read.
proof fn lemma_dec_enc_static_list(
    tys: Seq<SolType>,
    ks: Seq<TokenV>,
    data: Seq<u8>,
    base: nat,
    pos: nat,
    off0: nat,
)
    requires
        !crate::ty::spec_any_dynamic(tys),
        tokens_match_list(tys, ks),
        bounded_tokens(ks),
        pos + enc_heads_list(tys, ks, off0).len() <= data.len(),
        data.subrange(pos as int, pos as int + enc_heads_list(tys, ks, off0).len()) == enc_heads_list(
            tys,
            ks,
            off0,
        ),
        data.len() <= usize::MAX,
    ensures
        dec_list(tys, data, base, pos) == Some(ks),
    decreases tys, ks, 2int,
{
    if tys.len() == 0 {
        assert(ks.len() == 0);
        assert(dec_list(tys, data, base, pos) == Some(Seq::<TokenV>::empty()));
        assert(ks =~= Seq::<TokenV>::empty());
    } else {
        lemma_match_list_drop_first(tys, ks);
        lemma_bounded_tokens_drop_first(ks);
        let e0 = enc(tys[0], ks[0]);
        let rest = enc_heads_list(tys.drop_first(), ks.drop_first(), off0);
        assert(enc_heads_list(tys, ks, off0) == e0 + rest);
        lemma_subrange_split(data, pos as int, e0, rest);
        lemma_dec_enc_static(tys[0], ks[0], data, base, pos);
        lemma_enc_static_len(tys[0], ks[0]);
        assert(head_width(tys[0]) == e0.len());
        lemma_dec_enc_static_list(
            tys.drop_first(),
            ks.drop_first(),
            data,
            base,
            (pos + e0.len()) as nat,
            off0,
        );
        assert(seq![ks[0]] + ks.drop_first() =~= ks);
    }
}

proof fn lemma_dec_enc_static_unif(
    e: SolType,
    ks: Seq<TokenV>,
    data: Seq<u8>,
    base: nat,
    pos: nat,
    off0: nat,
)
    requires
        !spec_dynamic(e),
        tokens_match_unif(e, ks),
        bounded_tokens(ks),
        pos + enc_heads_unif(e, ks, off0).len() <= data.len(),
        data.subrange(pos as int, pos as int + enc_heads_unif(e, ks, off0).len()) == enc_heads_unif(
            e,
            ks,
            off0,
        ),
        data.len() <= usize::MAX,
    ensures
        dec_unif(e, ks.len(), data, base, pos) == Some(ks),
    decreases e, ks, 2int,
{
    if ks.len() == 0 {
        assert(ks =~= Seq::<TokenV>::empty());
    } else {
        lemma_match_unif_drop_first(e, ks);
        lemma_bounded_tokens_drop_first(ks);
        let e0 = enc(e, ks[0]);
        let rest = enc_heads_unif(e, ks.drop_first(), off0);
        assert(enc_heads_unif(e, ks, off0) == e0 + rest);
        lemma_subrange_split(data, pos as int, e0, rest);
        lemma_dec_enc_static(e, ks[0], data, base, pos);
        lemma_enc_static_len(e, ks[0]);
        assert(head_width(e) == e0.len());
        lemma_dec_enc_static_unif(
            e,
            ks.drop_first(),
            data,
            base,
            (pos + e0.len()) as nat,
            off0,
        );
        assert(seq![ks[0]] + ks.drop_first() =~= ks);
    }
}

/// A dynamic element decodes from its self-contained tail bytes.
proof fn lemma_dec_enc_tail(ty: SolType, t: TokenV, data: Seq<u8>, base: nat)
    requires
        spec_dynamic(ty),
        token_matches(ty, t),
        bounded_token(t),
        base + enc(ty, t).len() <= data.len(),
        data.subrange(base as int, base as int + enc(ty, t).len()) == enc(ty, t),
        data.len() <= usize::MAX,
    ensures
        dec_tail(ty, data, base) == Some(t),
    decreases ty, t, 0int,
{
    match ty {
        SolType::Bytes => {
            if let TokenV::PackedBytes(b) = t {
                lemma_be_bytes_len(b.len(), 32);
                assert(pad_right(b).len() == pad32_len(b.len()));
                assert(enc(ty, t).len() == 32 + pad32_len(b.len()));
                lemma_dec_enc_tail_bytes(b, data, base);
            }
        },
        SolType::Str => {
            if let TokenV::PackedBytes(b) = t {
                lemma_be_bytes_len(b.len(), 32);
                assert(pad_right(b).len() == pad32_len(b.len()));
                assert(enc(ty, t).len() == 32 + pad32_len(b.len()));
                lemma_dec_enc_tail_bytes(b, data, base);
            }
        },
        SolType::Array(e) => {
            if let TokenV::DynSeq(ks) = t {
                let off0 = (ks.len() * head_width(*e)) as nat;
                let heads = enc_heads_unif(*e, ks, off0);
                let tails = enc_tails_unif(*e, ks);
                lemma_len_word_val(ks.len());
                assert(enc(ty, t) == len_word(ks.len()) + (heads + tails));
                lemma_subrange_split(data, base as int, len_word(ks.len()), heads + tails);
                assert(be_val(data.subrange(base as int, base as int + 32)) == ks.len());
                lemma_subrange_split(data, base as int + 32, heads, tails);
                lemma_heads_len_unif(*e, ks, off0);
                assert(heads.len() == off0);
                lemma_dec_enc_group_unif(
                    *e,
                    ks,
                    data,
                    (base + 32) as nat,
                    (base + 32) as nat,
                    off0,
                );
            }
        },
        SolType::FixedArray(e, n) => {
            if let TokenV::FixedSeq(ks) = t {
                let off0 = (ks.len() * head_width(*e)) as nat;
                let heads = enc_heads_unif(*e, ks, off0);
                let tails = enc_tails_unif(*e, ks);
                assert(enc(ty, t) == heads + tails);
                lemma_subrange_split(data, base as int, heads, tails);
                lemma_heads_len_unif(*e, ks, off0);
                assert(heads.len() == off0);
                lemma_dec_enc_group_unif(*e, ks, data, base, base, off0);
                assert(dec_unif(*e, n as nat, data, base, base) == Some(ks));
            }
        },
        SolType::Tuple(ts) => {
            if let TokenV::FixedSeq(ks) = t {
                let off0 = head_width_list(ts@);
                let heads = enc_heads_list(ts@, ks, off0);
                let tails = enc_tails_list(ts@, ks);
                assert(enc(ty, t) == heads + tails);
                lemma_subrange_split(data, base as int, heads, tails);
                lemma_heads_len_list(ts@, ks, off0);
                assert(heads.len() == off0);
                lemma_dec_enc_group_list(ts@, ks, data, base, base, off0);
            }
        },
        _ => {},
    }
}

proof fn lemma_dec_enc_tail_bytes(b: Seq<u8>, data: Seq<u8>, base: nat)
    requires
        base + 32 + pad32_len(b.len()) <= data.len(),
        data.subrange(base as int, base as int + 32 + pad32_len(b.len())) == len_word(b.len()) + pad_right(
            b,
        ),
        data.len() <= usize::MAX,
    ensures
        dec_tail_bytes(data, base) == Some(TokenV::PackedBytes(b)),
{
    lemma_len_word_val(b.len());
    lemma_subrange_split(data, base as int, len_word(b.len()), pad_right(b));
    assert(be_val(data.subrange(base as int, base as int + 32)) == b.len());
    assert(pad_right(b).len() >= b.len());
    lemma_subrange_split(
        data,
        base as int + 32,
        b,
        zeros((pad32_len(b.len()) - b.len()) as nat),
    );
    assert(data.subrange(base as int + 32, base as int + 32 + b.len()) == b);
}

/// A whole mixed head/tail group, whose heads stand at `pos` and whose tails
/// begin `off0` bytes after the group start `base`, decodes to exactly the
/// members it was built from.
proof fn lemma_dec_enc_group_list(
    tys: Seq<SolType>,
    ks: Seq<TokenV>,
    data: Seq<u8>,
    base: nat,
    pos: nat,
    off0: nat,
)
    requires
        tokens_match_list(tys, ks),
        bounded_tokens(ks),
        pos + enc_heads_list(tys, ks, off0).len() <= data.len(),
        data.subrange(pos as int, pos as int + enc_heads_list(tys, ks, off0).len()) == enc_heads_list(
            tys,
            ks,
            off0,
        ),
        base + off0 + enc_tails_list(tys, ks).len() <= data.len(),
        data.subrange(base as int + off0, base as int + off0 + enc_tails_list(tys, ks).len()) == enc_tails_list(
            tys,
            ks,
        ),
        data.len() <= usize::MAX,
    ensures
        dec_list(tys, data, base, pos) == Some(ks),
    decreases tys, ks, 2int,
{
    if tys.len() == 0 {
        assert(ks =~= Seq::<TokenV>::empty());
    } else {
        lemma_match_list_drop_first(tys, ks);
        lemma_bounded_tokens_drop_first(ks);
        let e0 = enc(tys[0], ks[0]);
        if spec_dynamic(tys[0]) {
            let rest = enc_heads_list(tys.drop_first(), ks.drop_first(), off0 + e0.len());
            assert(enc_heads_list(tys, ks, off0) == len_word(off0) + rest);
            lemma_len_word_val(off0);
            lemma_subrange_split(data, pos as int, len_word(off0), rest);
            assert(be_val(data.subrange(pos as int, pos as int + 32)) == off0);
            let tails_rest = enc_tails_list(tys.drop_first(), ks.drop_first());
            assert(enc_tails_list(tys, ks) == e0 + tails_rest);
            lemma_subrange_split(data, base as int + off0, e0, tails_rest);
            lemma_dec_enc_tail(tys[0], ks[0], data, (base + off0) as nat);
            assert(dec_elem(tys[0], data, base, pos) == Some(ks[0]));
            lemma_dec_enc_group_list(
                tys.drop_first(),
                ks.drop_first(),
                data,
                base,
                (pos + 32) as nat,
                (off0 + e0.len()) as nat,
            );
            assert(seq![ks[0]] + ks.drop_first() =~= ks);
        } else {
            let rest = enc_heads_list(tys.drop_first(), ks.drop_first(), off0);
            assert(enc_heads_list(tys, ks, off0) == e0 + rest);
            lemma_subrange_split(data, pos as int, e0, rest);
            lemma_dec_enc_static(tys[0], ks[0], data, base, pos);
            lemma_enc_static_len(tys[0], ks[0]);
            assert(enc_tails_list(tys, ks) == enc_tails_list(tys.drop_first(), ks.drop_first()));
            lemma_dec_enc_group_list(
                tys.drop_first(),
                ks.drop_first(),
                data,
                base,
                (pos + e0.len()) as nat,
                off0,
            );
            assert(seq![ks[0]] + ks.drop_first() =~= ks);
        }
    }
}

proof fn lemma_dec_enc_group_unif(
    e: SolType,
    ks: Seq<TokenV>,
    data: Seq<u8>,
    base: nat,
    pos: nat,
    off0: nat,
)
    requires
        tokens_match_unif(e, ks),
        bounded_tokens(ks),
        pos + enc_heads_unif(e, ks, off0).len() <= data.len(),
        data.subrange(pos as int, pos as int + enc_heads_unif(e, ks, off0).len()) == enc_heads_unif(
            e,
            ks,
            off0,
        ),
        base + off0 + enc_tails_unif(e, ks).len() <= data.len(),
        data.subrange(base as int + off0, base as int + off0 + enc_tails_unif(e, ks).len()) == enc_tails_unif(
            e,
            ks,
        ),
        data.len() <= usize::MAX,
    ensures
        dec_unif(e, ks.len(), data, base, pos) == Some(ks),
    decreases e, ks, 2int,
{
    if ks.len() == 0 {
        assert(ks =~= Seq::<TokenV>::empty());
    } else {
        lemma_match_unif_drop_first(e, ks);
        lemma_bounded_tokens_drop_first(ks);
        let e0 = enc(e, ks[0]);
        if spec_dynamic(e) {
            let rest = enc_heads_unif(e, ks.drop_first(), off0 + e0.len());
            assert(enc_heads_unif(e, ks, off0) == len_word(off0) + rest);
            lemma_len_word_val(off0);
            lemma_subrange_split(data, pos as int, len_word(off0), rest);
            assert(be_val(data.subrange(pos as int, pos as int + 32)) == off0);
            let tails_rest = enc_tails_unif(e, ks.drop_first());
            assert(enc_tails_unif(e, ks) == e0 + tails_rest);
            lemma_subrange_split(data, base as int + off0, e0, tails_rest);
            lemma_dec_enc_tail(e, ks[0], data, (base + off0) as nat);
            assert(dec_elem(e, data, base, pos) == Some(ks[0]));
            lemma_dec_enc_group_unif(
                e,
                ks.drop_first(),
                data,
                base,
                (pos + 32) as nat,
                (off0 + e0.len()) as nat,
            );
            assert(seq![ks[0]] + ks.drop_first() =~= ks);
        } else {
            let rest = enc_heads_unif(e, ks.drop_first(), off0);
            assert(enc_heads_unif(e, ks, off0) == e0 + rest);
            lemma_subrange_split(data, pos as int, e0, rest);
            lemma_dec_enc_static(e, ks[0], data, base, pos);
            lemma_enc_static_len(e, ks[0]);
            assert(enc_tails_unif(e, ks) == enc_tails_unif(e, ks.drop_first()));
            lemma_dec_enc_group_unif(
                e,
                ks.drop_first(),
                data,
                base,
                (pos + e0.len()) as nat,
                off0,
            );
            assert(seq![ks[0]] + ks.drop_first() =~= ks);
        }
    }
}

/// The round-trip law for parameter lists: decoding the bare head/tail
/// encoding of a bounded well-formed sequence value (a tuple or a fixed
/// array) parses back exactly its member tokens, which pass validation and
/// detokenize to the value.
pub proof fn lemma_abi_round_trip_params(ty: SolType, v: ValueV)
    requires
        ty matches SolType::Tuple(_) || ty matches SolType::FixedArray(_, _),
        wf_type(ty),
        wf_value(ty, v),
        bounded_value(v),
        spec_abi_encode_sequence(ty, v).len() <= usize::MAX,
    ensures
        spec_abi_decode_sequence_token(ty, spec_abi_encode_sequence(ty, v)) == Some(
            spec_tokenize(ty, v),
        ),
        spec_valid_token(ty, spec_tokenize(ty, v)),
        spec_detokenize(ty, spec_tokenize(ty, v)) == v,
{
    let t = spec_tokenize(ty, v);
    let data = spec_abi_encode_sequence(ty, v);
    lemma_tokenize_valid(ty, v);
    lemma_detokenize_tokenize(ty, v);
    lemma_tokenize_bounded(ty, v);
    match ty {
        SolType::Tuple(ts) => {
            if let TokenV::FixedSeq(ks) = t {
                let off0 = head_width_list(ts@);
                let heads = enc_heads_list(ts@, ks, off0);
                let tails = enc_tails_list(ts@, ks);
                assert(data == enc_seq_list(ts@, ks));
                assert(data == heads + tails);
                assert(data.subrange(0, data.len() as int) =~= data);
                lemma_subrange_split(data, 0, heads, tails);
                lemma_heads_len_list(ts@, ks, off0);
                assert(heads.len() == off0);
                lemma_dec_enc_group_list(ts@, ks, data, 0, 0, off0);
            }
        },
        SolType::FixedArray(e, n) => {
            if let TokenV::FixedSeq(ks) = t {
                let off0 = (ks.len() * head_width(*e)) as nat;
                let heads = enc_heads_unif(*e, ks, off0);
                let tails = enc_tails_unif(*e, ks);
                assert(data == heads + tails);
                assert(data.subrange(0, data.len() as int) =~= data);
                lemma_subrange_split(data, 0, heads, tails);
                lemma_heads_len_unif(*e, ks, off0);
                assert(heads.len() == off0);
                lemma_dec_enc_group_unif(*e, ks, data, 0, 0, off0);
                assert(dec_unif(*e, n as nat, data, 0, 0) == Some(ks));
            }
        },
        _ => {},
    }
}

/// The round-trip law: decoding the standard encoding of a bounded
/// well-formed value parses back exactly the value's token; that token passes
/// validation; and detokenizing it gives the value back. So a decode with
/// validation of `spec_abi_encode(ty, v)` returns `v`.
pub proof fn lemma_abi_round_trip(ty: SolType, v: ValueV)
    requires
        wf_type(ty),
        wf_value(ty, v),
        bounded_value(v),
        spec_abi_encode(ty, v).len() <= usize::MAX,
    ensures
        spec_abi_decode_token(ty, spec_abi_encode(ty, v)) == Some(spec_tokenize(ty, v)),
        spec_valid_token(ty, spec_tokenize(ty, v)),
        spec_detokenize(ty, spec_tokenize(ty, v)) == v,
{
    let t = spec_tokenize(ty, v);
    let data = spec_abi_encode(ty, v);
    lemma_tokenize_valid(ty, v);
    lemma_detokenize_tokenize(ty, v);
    lemma_tokenize_bounded(ty, v);
    if spec_dynamic(ty) {
        assert(data == len_word(32) + enc(ty, t));
        lemma_len_word_val(32);
        assert(data.subrange(0, data.len() as int) =~= data);
        assert(data.len() == 32 + enc(ty, t).len());
        lemma_subrange_split(data, 0, len_word(32), enc(ty, t));
        assert(be_val(data.subrange(0, 32)) == 32);
        lemma_dec_enc_tail(ty, t, data, 32);
        assert(dec_elem(ty, data, 0, 0) == Some(t));
    } else {
        assert(data == enc(ty, t));
        assert(data.subrange(0, enc(ty, t).len() as int) =~= enc(ty, t));
        lemma_dec_enc_static(ty, t, data, 0, 0);
    }
}

} // verus!
