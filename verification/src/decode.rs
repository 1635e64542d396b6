use vstd::prelude::*;
use crate::errors::Error;
use crate::token::{Token, TokenV, token_views, token_matches, tokens_match_unif,
    tokens_match_list, lemma_token_views_index};
use crate::ty::{SolType, spec_dynamic, static_size, head_width};
use crate::words::{be_val, read_word_usize};

verus! {

/// Parses the element whose head stands at `pos`; offsets are relative to
/// `base`, the start of the enclosing head/tail group.
pub open spec fn dec_elem(ty: SolType, data: Seq<u8>, base: nat, pos: nat) -> Option<TokenV>
    decreases ty, 1int, 0nat,
{
    if spec_dynamic(ty) {
        if pos + 32 <= data.len() {
            let off = be_val(data.subrange(pos as int, pos as int + 32));
            if base + off <= data.len() {
                dec_tail(ty, data, (base + off) as nat)
            } else {
                None
            }
        } else {
            None
        }
    } else {
        match ty {
            SolType::Tuple(ts) => match dec_list(ts@, data, base, pos) {
                Some(ks) => Some(TokenV::FixedSeq(ks)),
                None => None,
            },
            SolType::FixedArray(e, n) => match dec_unif(*e, n as nat, data, base, pos) {
                Some(ks) => Some(TokenV::FixedSeq(ks)),
                None => None,
            },
            _ => if pos + 32 <= data.len() {
                Some(TokenV::Word(data.subrange(pos as int, pos as int + 32)))
            } else {
                None
            },
        }
    }
}

/// Parses the self-contained encoding of a dynamic element standing at `base`.
pub open spec fn dec_tail(ty: SolType, data: Seq<u8>, base: nat) -> Option<TokenV>
    decreases ty, 0int, 0nat,
{
    match ty {
        SolType::Bytes => dec_tail_bytes(data, base),
        SolType::Str => dec_tail_bytes(data, base),
        SolType::Array(e) => if base + 32 <= data.len() {
            let n = be_val(data.subrange(base as int, base as int + 32));
            if n <= usize::MAX {
                match dec_unif(*e, n, data, (base + 32) as nat, (base + 32) as nat) {
                    Some(ks) => Some(TokenV::DynSeq(ks)),
                    None => None,
                }
            } else {
                None
            }
        } else {
            None
        },
        SolType::FixedArray(e, n) => match dec_unif(*e, n as nat, data, base, base) {
            Some(ks) => Some(TokenV::FixedSeq(ks)),
            None => None,
        },
        SolType::Tuple(ts) => match dec_list(ts@, data, base, base) {
            Some(ks) => Some(TokenV::FixedSeq(ks)),
            None => None,
        },
        _ => None,
    }
}

/// Parses a length word and that many content bytes.
pub open spec fn dec_tail_bytes(data: Seq<u8>, base: nat) -> Option<TokenV> {
    if base + 32 <= data.len() {
        let n = be_val(data.subrange(base as int, base as int + 32));
        if base + 32 + n <= data.len() {
            Some(TokenV::PackedBytes(data.subrange(base as int + 32, base as int + 32 + n)))
        } else {
            None
        }
    } else {
        None
    }
}

/// Parses `n` elements of type `e` with their heads from `pos` on.
pub open spec fn dec_unif(e: SolType, n: nat, data: Seq<u8>, base: nat, pos: nat) -> Option<
    Seq<TokenV>,
>
    decreases e, 3int, n,
{
    if n == 0 {
        Some(Seq::empty())
    } else {
        match dec_elem(e, data, base, pos) {
            None => None,
            Some(t) => match dec_unif(e, (n - 1) as nat, data, base, pos + head_width(e)) {
                None => None,
                Some(rest) => Some(seq![t] + rest),
            },
        }
    }
}

/// Parses one element per listed type, heads from `pos` on.
pub open spec fn dec_list(tys: Seq<SolType>, data: Seq<u8>, base: nat, pos: nat) -> Option<
    Seq<TokenV>,
>
    decreases tys, 2int, 0nat,
{
    if tys.len() == 0 {
        Some(Seq::empty())
    } else {
        match dec_elem(tys[0], data, base, pos) {
            None => None,
            Some(t) => match dec_list(tys.drop_first(), data, base, pos + head_width(tys[0])) {
                None => None,
                Some(rest) => Some(seq![t] + rest),
            },
        }
    }
}

// ---------------------------------------------------------------------------
// facts about successful parses
// ---------------------------------------------------------------------------

/// A successfully parsed static element lay entirely inside the buffer (or
/// occupies no bytes at all).
pub proof fn lemma_dec_static_bound(ty: SolType, data: Seq<u8>, base: nat, pos: nat)
    requires
        !spec_dynamic(ty),
        dec_elem(ty, data, base, pos) is Some,
    ensures
        pos + static_size(ty) <= data.len() || static_size(ty) == 0,
    decreases ty, 1int, 0nat,
{
    match ty {
        SolType::Tuple(ts) => {
            lemma_dec_static_bound_list(ts@, data, base, pos);
            crate::encode::lemma_head_width_list_static(ts@);
        },
        SolType::FixedArray(e, n) => {
            lemma_dec_static_bound_unif(*e, n as nat, data, base, pos);
        },
        _ => {},
    }
}

pub proof fn lemma_dec_static_bound_list(tys: Seq<SolType>, data: Seq<u8>, base: nat, pos: nat)
    requires
        !crate::ty::spec_any_dynamic(tys),
        dec_list(tys, data, base, pos) is Some,
    ensures
        pos + crate::ty::static_size_list(tys) <= data.len() || crate::ty::static_size_list(tys)
            == 0,
    decreases tys, 2int, 0nat,
{
    if tys.len() > 0 {
        let s0 = static_size(tys[0]);
        lemma_dec_static_bound(tys[0], data, base, pos);
        lemma_dec_static_bound_list(tys.drop_first(), data, base, pos + head_width(tys[0]));
    }
}

pub proof fn lemma_dec_static_bound_unif(e: SolType, n: nat, data: Seq<u8>, base: nat, pos: nat)
    requires
        !spec_dynamic(e),
        dec_unif(e, n, data, base, pos) is Some,
    ensures
        pos + n * static_size(e) <= data.len() || n * static_size(e) == 0,
    decreases e, 3int, n,
{
    if n > 0 {
        lemma_dec_static_bound(e, data, base, pos);
        lemma_dec_static_bound_unif(e, (n - 1) as nat, data, base, pos + head_width(e));
        assert(n * static_size(e) == (n - 1) * static_size(e) + static_size(e))
            by (nonlinear_arith);
    } else {
        assert(0nat * static_size(e) == 0) by (nonlinear_arith);
    }
}

/// Snoc-shaped match predicates hold when the head element matches and the
/// rest match.
pub proof fn lemma_match_unif_cons(e: SolType, ks: Seq<TokenV>)
    requires
        ks.len() > 0,
        token_matches(e, ks[0]),
        tokens_match_unif(e, ks.drop_first()),
    ensures
        tokens_match_unif(e, ks),
    decreases ks.len(),
{
    if ks.len() > 1 {
        assert(ks.drop_last()[0] == ks[0]);
        assert(ks.drop_last().drop_first() =~= ks.drop_first().drop_last());
        assert(tokens_match_unif(e, ks.drop_first().drop_last()) && token_matches(
            e,
            ks.drop_first().last(),
        ));
        lemma_match_unif_cons(e, ks.drop_last());
        assert(tokens_match_unif(e, ks.drop_last()));
        assert(ks.last() == ks.drop_first().last());
        assert(token_matches(e, ks.last()));
    } else {
        assert(ks.drop_last().len() == 0);
        assert(tokens_match_unif(e, ks.drop_last()));
        assert(ks.last() == ks[0]);
    }
}

pub proof fn lemma_match_list_cons(tys: Seq<SolType>, ks: Seq<TokenV>)
    requires
        tys.len() == ks.len(),
        tys.len() > 0,
        token_matches(tys[0], ks[0]),
        tokens_match_list(tys.drop_first(), ks.drop_first()),
    ensures
        tokens_match_list(tys, ks),
    decreases tys.len(),
{
    if tys.len() > 1 {
        assert(tys.drop_last()[0] == tys[0]);
        assert(ks.drop_last()[0] == ks[0]);
        assert(tys.drop_last().drop_first() =~= tys.drop_first().drop_last());
        assert(ks.drop_last().drop_first() =~= ks.drop_first().drop_last());
        assert(tokens_match_list(tys.drop_first().drop_last(), ks.drop_first().drop_last())
            && token_matches(tys.drop_first().last(), ks.drop_first().last()));
        lemma_match_list_cons(tys.drop_last(), ks.drop_last());
        assert(tokens_match_list(tys.drop_last(), ks.drop_last()));
        assert(tys.last() == tys.drop_first().last());
        assert(ks.last() == ks.drop_first().last());
        assert(token_matches(tys.last(), ks.last()));
    } else {
        assert(tys.drop_last().len() == 0);
        assert(tokens_match_list(tys.drop_last(), ks.drop_last()));
        assert(tys.last() == tys[0]);
        assert(ks.last() == ks[0]);
    }
}

/// What a parse returns has the shape of the type that drove it.
pub proof fn lemma_dec_matches(ty: SolType, data: Seq<u8>, base: nat, pos: nat)
    requires
        dec_elem(ty, data, base, pos) is Some,
    ensures
        token_matches(ty, dec_elem(ty, data, base, pos)->Some_0),
    decreases ty, 1int, 0nat,
{
    if spec_dynamic(ty) {
        let off = be_val(data.subrange(pos as int, pos as int + 32));
        lemma_dec_tail_matches(ty, data, (base + off) as nat);
    } else {
        match ty {
            SolType::Tuple(ts) => {
                lemma_dec_list_matches(ts@, data, base, pos);
            },
            SolType::FixedArray(e, n) => {
                lemma_dec_unif_matches(*e, n as nat, data, base, pos);
            },
            _ => {},
        }
    }
}

pub proof fn lemma_dec_tail_matches(ty: SolType, data: Seq<u8>, base: nat)
    requires
        spec_dynamic(ty),
        dec_tail(ty, data, base) is Some,
    ensures
        token_matches(ty, dec_tail(ty, data, base)->Some_0),
    decreases ty, 0int, 0nat,
{
    match ty {
        SolType::Array(e) => {
            let n = be_val(data.subrange(base as int, base as int + 32));
            lemma_dec_unif_matches(*e, n, data, (base + 32) as nat, (base + 32) as nat);
        },
        SolType::FixedArray(e, n) => {
            lemma_dec_unif_matches(*e, n as nat, data, base, base);
        },
        SolType::Tuple(ts) => {
            lemma_dec_list_matches(ts@, data, base, base);
        },
        _ => {},
    }
}

pub proof fn lemma_dec_unif_matches(e: SolType, n: nat, data: Seq<u8>, base: nat, pos: nat)
    requires
        dec_unif(e, n, data, base, pos) is Some,
    ensures
        dec_unif(e, n, data, base, pos)->Some_0.len() == n,
        tokens_match_unif(e, dec_unif(e, n, data, base, pos)->Some_0),
    decreases e, 3int, n,
{
    if n > 0 {
        lemma_dec_matches(e, data, base, pos);
        lemma_dec_unif_matches(e, (n - 1) as nat, data, base, pos + head_width(e));
        let t = dec_elem(e, data, base, pos)->Some_0;
        let rest = dec_unif(e, (n - 1) as nat, data, base, pos + head_width(e))->Some_0;
        assert((seq![t] + rest)[0] == t);
        assert((seq![t] + rest).drop_first() =~= rest);
        lemma_match_unif_cons(e, seq![t] + rest);
    }
}

pub proof fn lemma_dec_list_matches(tys: Seq<SolType>, data: Seq<u8>, base: nat, pos: nat)
    requires
        dec_list(tys, data, base, pos) is Some,
    ensures
        dec_list(tys, data, base, pos)->Some_0.len() == tys.len(),
        tokens_match_list(tys, dec_list(tys, data, base, pos)->Some_0),
    decreases tys, 2int, 0nat,
{
    if tys.len() > 0 {
        lemma_dec_matches(tys[0], data, base, pos);
        lemma_dec_list_matches(tys.drop_first(), data, base, pos + head_width(tys[0]));
        let t = dec_elem(tys[0], data, base, pos)->Some_0;
        let rest = dec_list(tys.drop_first(), data, base, pos + head_width(tys[0]))->Some_0;
        assert((seq![t] + rest)[0] == t);
        assert((seq![t] + rest).drop_first() =~= rest);
        lemma_match_list_cons(tys, seq![t] + rest);
    }
}

// ---------------------------------------------------------------------------
// executable decoder
// ---------------------------------------------------------------------------

/// The bytes of `data` from `a` to `b`, as a fresh vector.
fn slice_sub_bytes(data: &[u8], a: usize, b: usize) -> (r: Vec<u8>)
    requires
        a <= b <= data@.len(),
    ensures
        r@ == data@.subrange(a as int, b as int),
{
    let mut out: Vec<u8> = Vec::new();
    let mut i: usize = a;
    while i < b
        invariant
            a <= i <= b <= data@.len(),
            out@ == data@.subrange(a as int, i as int),
        decreases b - i,
    {
        out.push(data[i]);
        proof {
            assert(out@ =~= data@.subrange(a as int, i + 1));
        }
        i = i + 1;
    }
    out
}

/// Token views of a vector with a token put in front.
proof fn lemma_views_cons(t: Token, rest: Seq<Token>, whole: Seq<Token>)
    requires
        whole == seq![t] + rest,
    ensures
        token_views(whole) == seq![t@] + token_views(rest),
{
    lemma_token_views_index(whole);
    lemma_token_views_index(rest);
    assert(whole[0] == t);
    assert forall|i: int| 0 <= i < whole.len() implies token_views(whole)[i] == (seq![t@]
        + token_views(rest))[i] by {
        if i > 0 {
            assert(whole[i] == rest[i - 1]);
        }
    }
    assert(token_views(whole) =~= seq![t@] + token_views(rest));
}

/// Parses the element whose head is at `pos`; never panics, and rejects any
/// buffer the layout does not fit.
#[verifier::loop_isolation(false)]
pub fn decode_elem(ty: &SolType, data: &[u8], base: usize, pos: usize) -> (r: Result<Token, Error>)
    requires
        base <= data@.len(),
    ensures
        r matches Ok(t) ==> dec_elem(*ty, data@, base as nat, pos as nat) == Some(t@),
        r is Err ==> dec_elem(*ty, data@, base as nat, pos as nat) is None,
        r matches Err(e) ==> e == Error::Overrun,
    decreases *ty, 1int, 0nat,
{
    let dlen: usize = data.len();
    if ty.dynamic() {
        if !(pos <= dlen && dlen - pos >= 32) {
            return Err(Error::Overrun);
        }
        let off = match read_word_usize(data, pos) {
            Some(o) => o,
            None => {
                return Err(Error::Overrun);
            },
        };
        if off > dlen - base {
            return Err(Error::Overrun);
        }
        decode_tail(ty, data, base + off)
    } else {
        match ty {
            SolType::Tuple(ts) => {
                proof {
                    assert(ts@.skip(0) =~= ts@);
                }
                match decode_list(ts, 0, data, base, pos) {
                    Ok(ks) => Ok(Token::FixedSeq(ks)),
                    Err(e) => Err(e),
                }
            },
            SolType::FixedArray(e, n) => {
                match decode_unif(e, *n, data, base, pos) {
                    Ok(ks) => Ok(Token::FixedSeq(ks)),
                    Err(er) => Err(er),
                }
            },
            _ => {
                if !(pos <= dlen && dlen - pos >= 32) {
                    return Err(Error::Overrun);
                }
                Ok(Token::Word(slice_sub_bytes(data, pos, pos + 32)))
            },
        }
    }
}

/// Parses the self-contained tail encoding of a dynamic element at `base`.
#[verifier::loop_isolation(false)]
pub fn decode_tail(ty: &SolType, data: &[u8], base: usize) -> (r: Result<Token, Error>)
    requires
        base <= data@.len(),
        spec_dynamic(*ty),
    ensures
        r matches Ok(t) ==> dec_tail(*ty, data@, base as nat) == Some(t@),
        r is Err ==> dec_tail(*ty, data@, base as nat) is None,
        r matches Err(e) ==> e == Error::Overrun,
    decreases *ty, 0int, 0nat,
{
    let dlen: usize = data.len();
    match ty {
        SolType::Bytes => decode_tail_bytes(data, base),
        SolType::Str => decode_tail_bytes(data, base),
        SolType::Array(e) => {
            if !(dlen - base >= 32) {
                return Err(Error::Overrun);
            }
            let n = match read_word_usize(data, base) {
                Some(n) => n,
                None => {
                    return Err(Error::Overrun);
                },
            };
            match decode_unif(e, n, data, base + 32, base + 32) {
                Ok(ks) => Ok(Token::DynSeq(ks)),
                Err(er) => Err(er),
            }
        },
        SolType::FixedArray(e, n) => {
            match decode_unif(e, *n, data, base, base) {
                Ok(ks) => Ok(Token::FixedSeq(ks)),
                Err(er) => Err(er),
            }
        },
        SolType::Tuple(ts) => {
            proof {
                assert(ts@.skip(0) =~= ts@);
            }
            match decode_list(ts, 0, data, base, base) {
                Ok(ks) => Ok(Token::FixedSeq(ks)),
                Err(e) => Err(e),
            }
        },
        _ => {
            proof {
                assert(false);
            }
            Err(Error::Overrun)
        },
    }
}

fn decode_tail_bytes(data: &[u8], base: usize) -> (r: Result<Token, Error>)
    requires
        base <= data@.len(),
    ensures
        r matches Ok(t) ==> dec_tail_bytes(data@, base as nat) == Some(t@),
        r is Err ==> dec_tail_bytes(data@, base as nat) is None,
        r matches Err(e) ==> e == Error::Overrun,
{
    let dlen: usize = data.len();
    if !(dlen - base >= 32) {
        return Err(Error::Overrun);
    }
    let n = match read_word_usize(data, base) {
        Some(n) => n,
        None => {
            return Err(Error::Overrun);
        },
    };
    if n > dlen - (base + 32) {
        return Err(Error::Overrun);
    }
    Ok(Token::PackedBytes(slice_sub_bytes(data, base + 32, base + 32 + n)))
}

/// Parses `n` same-typed elements with heads from `pos` on.
#[verifier::loop_isolation(false)]
pub fn decode_unif(e: &SolType, n: usize, data: &[u8], base: usize, pos: usize) -> (r: Result<
    Vec<Token>,
    Error,
>)
    requires
        base <= data@.len(),
    ensures
        r matches Ok(ks) ==> dec_unif(*e, n as nat, data@, base as nat, pos as nat) == Some(
            token_views(ks@),
        ),
        r is Err ==> dec_unif(*e, n as nat, data@, base as nat, pos as nat) is None,
        r matches Err(er) ==> er == Error::Overrun,
    decreases *e, 3int, n,
{
    let dlen: usize = data.len();
    if n == 0 {
        let ks: Vec<Token> = Vec::new();
        proof {
            assert(token_views(ks@) =~= Seq::<TokenV>::empty());
        }
        Ok(ks)
    } else {
        let t = match decode_elem(e, data, base, pos) {
            Ok(t) => t,
            Err(er) => {
                return Err(er);
            },
        };
        let w = element_advance(e, data, base, pos);
        let mut rest = match decode_unif(e, n - 1, data, base, pos + w) {
            Ok(ks) => ks,
            Err(er) => {
                return Err(er);
            },
        };
        let ghost restv = rest@;
        rest.insert(0, t);
        proof {
            assert(rest@ =~= seq![t] + restv);
            lemma_views_cons(t, restv, rest@);
        }
        Ok(rest)
    }
}

/// The head bytes a just-parsed element occupied; callable only after
/// `decode_elem` succeeded at this position.
fn element_advance(ty: &SolType, data: &[u8], base: usize, pos: usize) -> (w: usize)
    requires
        base <= data@.len(),
        dec_elem(*ty, data@, base as nat, pos as nat) is Some,
    ensures
        w == head_width(*ty),
        pos + w <= data@.len() || w == 0,
{
    let dlen: usize = data.len();
    if ty.dynamic() {
        32
    } else {
        proof {
            lemma_dec_static_bound(*ty, data@, base as nat, pos as nat);
        }
        match ty.encoded_size() {
            Some(k) => k,
            None => 0,  // unreachable
        }
    }
}

/// Parses one element per member type from index `i` on.
#[verifier::loop_isolation(false)]
pub fn decode_list(tys: &Vec<SolType>, i: usize, data: &[u8], base: usize, pos: usize) -> (r:
    Result<Vec<Token>, Error>)
    requires
        base <= data@.len(),
        i <= tys@.len(),
    ensures
        r matches Ok(ks) ==> dec_list(tys@.skip(i as int), data@, base as nat, pos as nat) == Some(
            token_views(ks@),
        ),
        r is Err ==> dec_list(tys@.skip(i as int), data@, base as nat, pos as nat) is None,
        r matches Err(er) ==> er == Error::Overrun,
    decreases tys@.skip(i as int), 2int, 0nat,
{
    let dlen: usize = data.len();
    if i == tys.len() {
        let ks: Vec<Token> = Vec::new();
        proof {
            assert(tys@.skip(i as int).len() == 0);
            assert(token_views(ks@) =~= Seq::<TokenV>::empty());
        }
        Ok(ks)
    } else {
        proof {
            assert(tys@.skip(i as int)[0] == tys@[i as int]);
            assert(tys@.skip(i as int).drop_first() =~= tys@.skip(i + 1));
        }
        let t = match decode_elem(&tys[i], data, base, pos) {
            Ok(t) => t,
            Err(er) => {
                return Err(er);
            },
        };
        let w = element_advance_list(tys, i, data, base, pos);
        let mut rest = match decode_list(tys, i + 1, data, base, pos + w) {
            Ok(ks) => ks,
            Err(er) => {
                return Err(er);
            },
        };
        let ghost restv = rest@;
        rest.insert(0, t);
        proof {
            assert(rest@ =~= seq![t] + restv);
            lemma_views_cons(t, restv, rest@);
        }
        Ok(rest)
    }
}

fn element_advance_list(tys: &Vec<SolType>, i: usize, data: &[u8], base: usize, pos: usize) -> (w:
    usize)
    requires
        base <= data@.len(),
        i < tys@.len(),
        dec_elem(tys@[i as int], data@, base as nat, pos as nat) is Some,
    ensures
        w == head_width(tys@[i as int]),
        pos + w <= data@.len() || w == 0,
{
    element_advance(&tys[i], data, base, pos)
}

} // verus!
