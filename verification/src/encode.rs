use vstd::prelude::*;
use crate::ty::{SolType, spec_dynamic, static_size, head_width, head_width_list, wf_type};
use crate::token::{Token, TokenV, token_matches, tokens_match_unif, tokens_match_list, token_views,
    lemma_token_views_index};
use crate::words::{len_word, zeros, push_len_word, lemma_be_bytes_len};

verus! {

/// Length of `n` bytes of content once right-padded to a whole number of
/// words.
pub open spec fn pad32_len(n: nat) -> nat {
    (n + (32 - n % 32) % 32) as nat
}

/// Content right-padded with zero bytes to a whole number of words.
pub open spec fn pad_right(s: Seq<u8>) -> Seq<u8> {
    s + zeros((pad32_len(s.len()) - s.len()) as nat)
}

/// The self-contained encoding of one element: the bytes a static element
/// contributes in place, or the bytes a dynamic element contributes to the
/// tail region.
pub open spec fn enc(ty: SolType, t: TokenV) -> Seq<u8>
    decreases ty, t, 0int,
{
    match ty {
        SolType::Bytes => match t {
            TokenV::PackedBytes(b) => len_word(b.len()) + pad_right(b),
            _ => Seq::empty(),
        },
        SolType::Str => match t {
            TokenV::PackedBytes(b) => len_word(b.len()) + pad_right(b),
            _ => Seq::empty(),
        },
        SolType::Array(e) => match t {
            TokenV::DynSeq(ks) => len_word(ks.len()) + enc_seq_unif(*e, ks),
            _ => Seq::empty(),
        },
        SolType::FixedArray(e, _) => match t {
            TokenV::FixedSeq(ks) => enc_seq_unif(*e, ks),
            _ => Seq::empty(),
        },
        SolType::Tuple(ts) => match t {
            TokenV::FixedSeq(ks) => enc_seq_list(ts@, ks),
            _ => Seq::empty(),
        },
        _ => match t {
            TokenV::Word(w) => w,
            _ => Seq::empty(),
        },
    }
}

/// Head/tail encoding of a whole group of same-typed elements (the body of an
/// array).
pub open spec fn enc_seq_unif(e: SolType, ks: Seq<TokenV>) -> Seq<u8>
    decreases e, ks, 2int,
{
    enc_heads_unif(e, ks, (ks.len() * head_width(e)) as nat) + enc_tails_unif(e, ks)
}

pub open spec fn enc_heads_unif(e: SolType, ks: Seq<TokenV>, off: nat) -> Seq<u8>
    decreases e, ks, 1int,
{
    if ks.len() == 0 {
        Seq::empty()
    } else if spec_dynamic(e) {
        len_word(off) + enc_heads_unif(e, ks.drop_first(), off + enc(e, ks[0]).len())
    } else {
        enc(e, ks[0]) + enc_heads_unif(e, ks.drop_first(), off)
    }
}

pub open spec fn enc_tails_unif(e: SolType, ks: Seq<TokenV>) -> Seq<u8>
    decreases e, ks, 1int,
{
    if ks.len() == 0 {
        Seq::empty()
    } else if spec_dynamic(e) {
        enc(e, ks[0]) + enc_tails_unif(e, ks.drop_first())
    } else {
        enc_tails_unif(e, ks.drop_first())
    }
}

/// Head/tail encoding of a whole group of elements of listed types (a tuple's
/// members or a parameter list).
pub open spec fn enc_seq_list(tys: Seq<SolType>, ks: Seq<TokenV>) -> Seq<u8>
    decreases tys, ks, 2int,
{
    enc_heads_list(tys, ks, head_width_list(tys)) + enc_tails_list(tys, ks)
}

pub open spec fn enc_heads_list(tys: Seq<SolType>, ks: Seq<TokenV>, off: nat) -> Seq<u8>
    decreases tys, ks, 1int,
{
    if tys.len() == 0 || ks.len() == 0 {
        Seq::empty()
    } else if spec_dynamic(tys[0]) {
        len_word(off) + enc_heads_list(
            tys.drop_first(),
            ks.drop_first(),
            off + enc(tys[0], ks[0]).len(),
        )
    } else {
        enc(tys[0], ks[0]) + enc_heads_list(tys.drop_first(), ks.drop_first(), off)
    }
}

pub open spec fn enc_tails_list(tys: Seq<SolType>, ks: Seq<TokenV>) -> Seq<u8>
    decreases tys, ks, 1int,
{
    if tys.len() == 0 || ks.len() == 0 {
        Seq::empty()
    } else if spec_dynamic(tys[0]) {
        enc(tys[0], ks[0]) + enc_tails_list(tys.drop_first(), ks.drop_first())
    } else {
        enc_tails_list(tys.drop_first(), ks.drop_first())
    }
}

// ---------------------------------------------------------------------------
// structural facts about the encoding
// ---------------------------------------------------------------------------

/// Uniform shape facts pass from the snoc-shaped definitions to the first
/// element and the rest.
pub proof fn lemma_match_unif_drop_first(e: SolType, ks: Seq<TokenV>)
    requires
        tokens_match_unif(e, ks),
        ks.len() > 0,
    ensures
        token_matches(e, ks[0]),
        tokens_match_unif(e, ks.drop_first()),
    decreases ks.len(),
{
    if ks.len() > 1 {
        assert(ks.drop_last()[0] == ks[0]);
        lemma_match_unif_drop_first(e, ks.drop_last());
        assert(ks.drop_first().drop_last() =~= ks.drop_last().drop_first());
        assert(ks.drop_first().last() == ks.last());
    } else {
        assert(ks.drop_last().len() == 0);
        assert(ks.last() == ks[0]);
        assert(ks.drop_first().len() == 0);
    }
}

pub proof fn lemma_match_list_drop_first(tys: Seq<SolType>, ks: Seq<TokenV>)
    requires
        tokens_match_list(tys, ks),
        tys.len() > 0,
    ensures
        token_matches(tys[0], ks[0]),
        tokens_match_list(tys.drop_first(), ks.drop_first()),
    decreases tys.len(),
{
    if tys.len() > 1 {
        assert(tys.drop_last()[0] == tys[0]);
        assert(ks.drop_last()[0] == ks[0]);
        lemma_match_list_drop_first(tys.drop_last(), ks.drop_last());
        assert(tys.drop_first().drop_last() =~= tys.drop_last().drop_first());
        assert(ks.drop_first().drop_last() =~= ks.drop_last().drop_first());
        assert(tys.drop_first().last() == tys.last());
        assert(ks.drop_first().last() == ks.last());
    } else {
        assert(tys.last() == tys[0]);
        assert(ks.last() == ks[0]);
        assert(tys.drop_first().len() == 0);
        assert(ks.drop_first().len() == 0);
    }
}

/// A static element's encoding is exactly its static size; the heads region of
/// a group is exactly its head width, and a static group has no tail.
pub proof fn lemma_enc_static_len(ty: SolType, t: TokenV)
    requires
        !spec_dynamic(ty),
        token_matches(ty, t),
    ensures
        enc(ty, t).len() == static_size(ty),
    decreases ty, t, 0int,
{
    match ty {
        SolType::FixedArray(e, n) => {
            if let TokenV::FixedSeq(ks) = t {
                lemma_heads_len_unif(*e, ks, (ks.len() * head_width(*e)) as nat);
                lemma_tails_empty_unif(*e, ks);
                assert(head_width(*e) == static_size(*e));
                assert(ks.len() * static_size(*e) == (n as nat) * static_size(*e));
            }
        },
        SolType::Tuple(ts) => {
            if let TokenV::FixedSeq(ks) = t {
                lemma_heads_len_list(ts@, ks, head_width_list(ts@));
                lemma_tails_empty_list(ts@, ks);
                lemma_head_width_list_static(ts@);
            }
        },
        _ => {},
    }
}

/// For a list with no dynamic member, head width equals static size.
pub proof fn lemma_head_width_list_static(tys: Seq<SolType>)
    requires
        !crate::ty::spec_any_dynamic(tys),
    ensures
        head_width_list(tys) == crate::ty::static_size_list(tys),
    decreases tys.len(),
{
    if tys.len() > 0 {
        lemma_head_width_list_static(tys.drop_first());
    }
}

pub proof fn lemma_heads_len_unif(e: SolType, ks: Seq<TokenV>, off: nat)
    requires
        tokens_match_unif(e, ks),
    ensures
        enc_heads_unif(e, ks, off).len() == ks.len() * head_width(e),
    decreases e, ks, 1int,
{
    if ks.len() > 0 {
        lemma_match_unif_drop_first(e, ks);
        if spec_dynamic(e) {
            lemma_heads_len_unif(e, ks.drop_first(), off + enc(e, ks[0]).len());
            lemma_be_bytes_len(off, 32);
        } else {
            lemma_enc_static_len(e, ks[0]);
            lemma_heads_len_unif(e, ks.drop_first(), off);
        }
        assert(ks.len() * head_width(e) == (ks.len() - 1) * head_width(e) + head_width(e))
            by (nonlinear_arith);
    } else {
        assert(0nat * head_width(e) == 0) by (nonlinear_arith);
    }
}

pub proof fn lemma_heads_len_list(tys: Seq<SolType>, ks: Seq<TokenV>, off: nat)
    requires
        tokens_match_list(tys, ks),
    ensures
        enc_heads_list(tys, ks, off).len() == head_width_list(tys),
    decreases tys, ks, 1int,
{
    if tys.len() > 0 {
        lemma_match_list_drop_first(tys, ks);
        if spec_dynamic(tys[0]) {
            lemma_heads_len_list(tys.drop_first(), ks.drop_first(), off + enc(tys[0], ks[0]).len());
            lemma_be_bytes_len(off, 32);
        } else {
            lemma_enc_static_len(tys[0], ks[0]);
            lemma_heads_len_list(tys.drop_first(), ks.drop_first(), off);
        }
    }
}

pub proof fn lemma_tails_empty_unif(e: SolType, ks: Seq<TokenV>)
    requires
        !spec_dynamic(e),
    ensures
        enc_tails_unif(e, ks).len() == 0,
    decreases ks.len(),
{
    if ks.len() > 0 {
        lemma_tails_empty_unif(e, ks.drop_first());
    }
}

pub proof fn lemma_tails_empty_list(tys: Seq<SolType>, ks: Seq<TokenV>)
    requires
        !crate::ty::spec_any_dynamic(tys),
    ensures
        enc_tails_list(tys, ks).len() == 0,
    decreases tys.len(),
{
    if tys.len() > 0 && ks.len() > 0 {
        lemma_tails_empty_list(tys.drop_first(), ks.drop_first());
    }
}

// ---------------------------------------------------------------------------
// executable encoder
// ---------------------------------------------------------------------------

/// Appends all bytes of `src` to `out`.
pub fn push_bytes(out: &mut Vec<u8>, src: &Vec<u8>)
    ensures
        final(out)@ == old(out)@ + src@,
{
    let mut i: usize = 0;
    while i < src.len()
        invariant
            i <= src@.len(),
            out@ == old(out)@ + src@.take(i as int),
        decreases src@.len() - i,
    {
        out.push(src[i]);
        proof {
            assert(out@ =~= old(out)@ + src@.take(i + 1));
        }
        i = i + 1;
    }
    proof {
        assert(old(out)@ + src@.take(src@.len() as int) =~= old(out)@ + src@);
    }
}

/// Appends `src` right-padded with zeros to a whole number of words.
pub fn push_padded(out: &mut Vec<u8>, src: &Vec<u8>)
    ensures
        final(out)@ == old(out)@ + pad_right(src@),
{
    push_bytes(out, src);
    let r = src.len() % 32;
    let p = (32 - r) % 32;
    let mut i: usize = 0;
    while i < p
        invariant
            i <= p,
            p == (32 - src@.len() % 32) % 32,
            out@ == old(out)@ + src@ + zeros(i as nat),
        decreases p - i,
    {
        out.push(0u8);
        proof {
            assert(out@ =~= old(out)@ + src@ + zeros((i + 1) as nat));
        }
        i = i + 1;
    }
    proof {
        assert(out@ =~= old(out)@ + pad_right(src@));
    }
}

/// Encodes one element in place: what `enc` says it contributes where it
/// stands.
pub fn encode_token_into(ty: &SolType, t: &Token, out: &mut Vec<u8>)
    requires
        token_matches(*ty, t@),
        old(out)@.len() + enc(*ty, t@).len() <= usize::MAX,
    ensures
        final(out)@ == old(out)@ + enc(*ty, t@),
    decreases *ty, *t, 0int,
{
    match (ty, t) {
        (SolType::Bytes, Token::PackedBytes(b)) => {
            push_len_word(out, b.len());
            push_padded(out, b);
        },
        (SolType::Str, Token::PackedBytes(b)) => {
            push_len_word(out, b.len());
            push_padded(out, b);
        },
        (SolType::Array(e), Token::DynSeq(ks)) => {
            proof {
                lemma_token_views_index(ks@);
            }
            push_len_word(out, ks.len());
            encode_group_unif(e, ks, out);
        },
        (SolType::FixedArray(e, _), Token::FixedSeq(ks)) => {
            proof {
                lemma_token_views_index(ks@);
            }
            encode_group_unif(e, ks, out);
        },
        (SolType::Tuple(ts), Token::FixedSeq(ks)) => {
            proof {
                lemma_token_views_index(ks@);
            }
            encode_group_list(ts, ks, out);
        },
        (_, Token::Word(w)) => {
            push_bytes(out, w);
        },
        _ => {
            proof {
                assert(false);
            }
        },
    }
}

/// Lays out the head/tail group of an array body.
pub(crate) fn encode_group_unif(e: &SolType, ks: &Vec<Token>, out: &mut Vec<u8>)
    requires
        tokens_match_unif(*e, token_views(ks@)),
        old(out)@.len() + enc_seq_unif(*e, token_views(ks@)).len() <= usize::MAX,
    ensures
        final(out)@ == old(out)@ + enc_seq_unif(*e, token_views(ks@)),
    decreases *e, ks@, 3int,
{
    let ghost kv = token_views(ks@);
    proof {
        lemma_token_views_index(ks@);
        lemma_heads_len_unif(*e, kv, (kv.len() * head_width(*e)) as nat);
        assert(kv.skip(0) =~= kv);
        assert(ks@.skip(0) =~= ks@);
    }
    let w = head_width_total_unif(e, ks);
    let mut tail: Vec<u8> = Vec::new();
    encode_heads_unif(e, ks, 0, out, &mut tail, w);
    out.append(&mut tail);
}

/// Computes the head width of a uniform group, in bytes.
fn head_width_total_unif(e: &SolType, ks: &Vec<Token>) -> (r: usize)
    requires
        tokens_match_unif(*e, token_views(ks@)),
        token_views(ks@).len() * head_width(*e) <= usize::MAX,
    ensures
        r == token_views(ks@).len() * head_width(*e),
{
    proof {
        lemma_token_views_index(ks@);
    }
    let hw: usize = if ks.len() == 0 {
        proof {
            assert(token_views(ks@).len() * head_width(*e) == 0) by (nonlinear_arith)
                requires token_views(ks@).len() == 0;
        }
        0
    } else {
        let ghost kv = token_views(ks@);
        proof {
            lemma_match_unif_index(*e, kv, 0);
            if !spec_dynamic(*e) {
                lemma_static_head_bound(*e, kv);
            }
        }
        let one = if e.dynamic() {
            32
        } else {
            match e.encoded_size() {
                Some(k) => k,
                None => 0,  // unreachable
            }
        };
        proof {
            assert((one as nat) == head_width(*e));
            lemma_mul_bound(kv.len(), one as nat, usize::MAX as nat);
        }
        ks.len() * one
    };
    hw
}

/// From `a * b <= c` and `a >= 1`, each factor is bounded.
proof fn lemma_mul_bound(a: nat, b: nat, c: nat)
    requires
        a * b <= c,
        a >= 1,
    ensures
        b <= c,
{
    assert(b <= a * b) by (nonlinear_arith)
        requires a >= 1, b >= 0;
}

/// In a nonempty static uniform group the element's static size is bounded by
/// the group's head width.
proof fn lemma_static_head_bound(e: SolType, kv: Seq<TokenV>)
    requires
        !spec_dynamic(e),
        kv.len() >= 1,
    ensures
        static_size(e) <= kv.len() * static_size(e),
{
    assert(static_size(e) <= kv.len() * static_size(e)) by (nonlinear_arith)
        requires kv.len() >= 1, static_size(e) >= 0;
}

/// An element of a uniform group matches the element type.
pub proof fn lemma_match_unif_index(e: SolType, ks: Seq<TokenV>, i: int)
    requires
        tokens_match_unif(e, ks),
        0 <= i < ks.len(),
    ensures
        token_matches(e, ks[i]),
    decreases ks.len(),
{
    if i == ks.len() - 1 {
    } else {
        assert(ks.drop_last()[i] == ks[i]);
        lemma_match_unif_index(e, ks.drop_last(), i);
    }
}

pub proof fn lemma_match_list_index(tys: Seq<SolType>, ks: Seq<TokenV>, i: int)
    requires
        tokens_match_list(tys, ks),
        0 <= i < tys.len(),
    ensures
        token_matches(tys[i], ks[i]),
    decreases tys.len(),
{
    if i == tys.len() - 1 {
    } else {
        assert(tys.drop_last()[i] == tys[i]);
        assert(ks.drop_last()[i] == ks[i]);
        lemma_match_list_index(tys.drop_last(), ks.drop_last(), i);
    }
}

/// Writes heads of elements `i..` of a uniform group into `out` and their
/// tails onto `tail`; `w` is the group's total head width and offsets are
/// written as `w` plus the tail bytes already produced.
fn encode_heads_unif(
    e: &SolType,
    ks: &Vec<Token>,
    i: usize,
    out: &mut Vec<u8>,
    tail: &mut Vec<u8>,
    w: usize,
)
    requires
        i <= ks@.len(),
        tokens_match_unif(*e, token_views(ks@)),
        w + old(tail)@.len() + enc_tails_unif(*e, token_views(ks@).skip(i as int)).len()
            <= usize::MAX,
        old(out)@.len() + enc_heads_unif(
            *e,
            token_views(ks@).skip(i as int),
            (w + old(tail)@.len()) as nat,
        ).len() <= usize::MAX,
    ensures
        final(out)@ == old(out)@ + enc_heads_unif(
            *e,
            token_views(ks@).skip(i as int),
            (w + old(tail)@.len()) as nat,
        ),
        final(tail)@ == old(tail)@ + enc_tails_unif(*e, token_views(ks@).skip(i as int)),
    decreases *e, ks@.skip(i as int), 2int,
{
    let ghost kv = token_views(ks@);
    proof {
        lemma_token_views_index(ks@);
    }
    if i < ks.len() {
        proof {
            lemma_match_unif_index(*e, kv, i as int);
            assert(kv.skip(i as int)[0] == kv[i as int]);
            assert(kv.skip(i as int).drop_first() =~= kv.skip(i + 1));
            assert(ks@.skip(i as int).drop_first() =~= ks@.skip(i + 1));
            assert(ks@[i as int] == ks@.skip(i as int)[0]);
        }
        if e.dynamic() {
            let off = w + tail.len();
            push_len_word(out, off);
            encode_token_into(e, &ks[i], tail);
            proof {
                lemma_be_bytes_len(off as nat, 32);
            }
            encode_heads_unif(e, ks, i + 1, out, tail, w);
        } else {
            encode_token_into(e, &ks[i], out);
            encode_heads_unif(e, ks, i + 1, out, tail, w);
        }
    } else {
        proof {
            assert(kv.skip(i as int).len() == 0);
        }
    }
}

/// Lays out the head/tail group of a tuple's members.
pub(crate) fn encode_group_list(tys: &Vec<SolType>, ks: &Vec<Token>, out: &mut Vec<u8>)
    requires
        tokens_match_list(tys@, token_views(ks@)),
        old(out)@.len() + enc_seq_list(tys@, token_views(ks@)).len() <= usize::MAX,
    ensures
        final(out)@ == old(out)@ + enc_seq_list(tys@, token_views(ks@)),
    decreases tys@, ks@, 3int,
{
    let ghost kv = token_views(ks@);
    proof {
        lemma_token_views_index(ks@);
        lemma_heads_len_list(tys@, kv, head_width_list(tys@));
        assert(kv.skip(0) =~= kv);
        assert(ks@.skip(0) =~= ks@);
        assert(tys@.skip(0) =~= tys@);
    }
    let w = head_width_total_list(tys, ks);
    let mut tail: Vec<u8> = Vec::new();
    encode_heads_list(tys, ks, 0, out, &mut tail, w);
    out.append(&mut tail);
}

/// Computes the head width of a listed group, in bytes.
fn head_width_total_list(tys: &Vec<SolType>, ks: &Vec<Token>) -> (r: usize)
    requires
        tokens_match_list(tys@, token_views(ks@)),
        head_width_list(tys@) <= usize::MAX,
    ensures
        r == head_width_list(tys@),
    decreases tys@.len(),
{
    proof {
        assert(tys@.skip(0) =~= tys@);
    }
    head_width_from(tys, 0)
}

/// Head width of the members from index `i` on.
fn head_width_from(tys: &Vec<SolType>, i: usize) -> (r: usize)
    requires
        i <= tys@.len(),
        head_width_list(tys@.skip(i as int)) <= usize::MAX,
    ensures
        r == head_width_list(tys@.skip(i as int)),
    decreases tys@.len() - i,
{
    if i < tys.len() {
        proof {
            assert(tys@.skip(i as int)[0] == tys@[i as int]);
            assert(tys@.skip(i as int).drop_first() =~= tys@.skip(i + 1));
        }
        let one: usize = if tys[i].dynamic() {
            32
        } else {
            match tys[i].encoded_size() {
                Some(k) => k,
                None => 0,  // unreachable
            }
        };
        let rest = head_width_from(tys, i + 1);
        one + rest
    } else {
        proof {
            assert(tys@.skip(i as int).len() == 0);
        }
        0
    }
}

/// Writes heads of members `i..` of a listed group into `out` and their tails
/// onto `tail`; `w` is the group's total head width.
fn encode_heads_list(
    tys: &Vec<SolType>,
    ks: &Vec<Token>,
    i: usize,
    out: &mut Vec<u8>,
    tail: &mut Vec<u8>,
    w: usize,
)
    requires
        i <= tys@.len(),
        tokens_match_list(tys@, token_views(ks@)),
        w + old(tail)@.len() + enc_tails_list(
            tys@.skip(i as int),
            token_views(ks@).skip(i as int),
        ).len() <= usize::MAX,
        old(out)@.len() + enc_heads_list(
            tys@.skip(i as int),
            token_views(ks@).skip(i as int),
            (w + old(tail)@.len()) as nat,
        ).len() <= usize::MAX,
    ensures
        final(out)@ == old(out)@ + enc_heads_list(
            tys@.skip(i as int),
            token_views(ks@).skip(i as int),
            (w + old(tail)@.len()) as nat,
        ),
        final(tail)@ == old(tail)@ + enc_tails_list(
            tys@.skip(i as int),
            token_views(ks@).skip(i as int),
        ),
    decreases tys@.skip(i as int), ks@.skip(i as int), 2int,
{
    let ghost kv = token_views(ks@);
    proof {
        lemma_token_views_index(ks@);
    }
    if i < tys.len() {
        proof {
            lemma_match_list_index(tys@, kv, i as int);
            assert(kv.skip(i as int)[0] == kv[i as int]);
            assert(kv.skip(i as int).drop_first() =~= kv.skip(i + 1));
            assert(ks@.skip(i as int).drop_first() =~= ks@.skip(i + 1));
            assert(tys@.skip(i as int)[0] == tys@[i as int]);
            assert(tys@.skip(i as int).drop_first() =~= tys@.skip(i + 1));
            assert(ks@[i as int] == ks@.skip(i as int)[0]);
        }
        if tys[i].dynamic() {
            let off = w + tail.len();
            push_len_word(out, off);
            encode_token_into(&tys[i], &ks[i], tail);
            proof {
                lemma_be_bytes_len(off as nat, 32);
            }
            encode_heads_list(tys, ks, i + 1, out, tail, w);
        } else {
            encode_token_into(&tys[i], &ks[i], out);
            encode_heads_list(tys, ks, i + 1, out, tail, w);
        }
    } else {
        proof {
            assert(kv.skip(i as int).len() == 0);
            assert(tys@.skip(i as int).len() == 0);
        }
    }
}

} // verus!
