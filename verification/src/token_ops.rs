use vstd::prelude::*;
use vstd::string::StringExecFns;
use crate::errors::Error;
use crate::token::{Token, TokenV, Value, ValueV, token_views, value_views,
    token_matches, spec_valid_token, wf_value, spec_tokenize, spec_detokenize, tokenize_unif,
    tokenize_list, detokenize_unif, detokenize_list, tokens_match_unif, tokens_match_list,
    tokens_valid_unif, tokens_valid_list, wf_values_unif, wf_values_list, valid_bool_word,
    valid_uint_word, valid_int_word, valid_address_word, valid_fixed_bytes_word, word_nonzero,
    lemma_token_views_index, lemma_value_views_index};
use crate::ty::{SolType, wf_type, wf_type_list, spec_name};
use crate::encode::{lemma_match_unif_index, lemma_match_list_index};
use crate::words::zeros;

verus! {

/// A fresh copy of a byte vector.
pub fn copy_bytes(src: &Vec<u8>) -> (r: Vec<u8>)
    ensures
        r@ == src@,
{
    let mut out: Vec<u8> = Vec::new();
    crate::encode::push_bytes(&mut out, src);
    proof {
        assert(Seq::<u8>::empty() + src@ =~= src@);
    }
    out
}

/// The bytes of `src` from `a` to `b`.
pub fn sub_bytes(src: &Vec<u8>, a: usize, b: usize) -> (r: Vec<u8>)
    requires
        a <= b <= src@.len(),
    ensures
        r@ == src@.subrange(a as int, b as int),
{
    let mut out: Vec<u8> = Vec::new();
    let mut i: usize = a;
    while i < b
        invariant
            a <= i <= b <= src@.len(),
            out@ == src@.subrange(a as int, i as int),
        decreases b - i,
    {
        out.push(src[i]);
        proof {
            assert(out@ =~= src@.subrange(a as int, i + 1));
        }
        i = i + 1;
    }
    out
}

fn make_bool_word(b: bool) -> (r: Vec<u8>)
    ensures
        r@ == zeros(31).push(
            if b {
                1u8
            } else {
                0u8
            },
        ),
{
    let mut out: Vec<u8> = Vec::new();
    let mut i: usize = 0;
    while i < 31
        invariant
            i <= 31,
            out@ == zeros(i as nat),
        decreases 31 - i,
    {
        out.push(0u8);
        proof {
            assert(out@ =~= zeros((i + 1) as nat));
        }
        i = i + 1;
    }
    if b {
        out.push(1u8);
    } else {
        out.push(0u8);
    }
    out
}

fn make_address_word(a: &Vec<u8>) -> (r: Vec<u8>)
    requires
        a@.len() == 20,
    ensures
        r@ == zeros(12) + a@,
{
    let mut out: Vec<u8> = Vec::new();
    let mut i: usize = 0;
    while i < 12
        invariant
            i <= 12,
            out@ == zeros(i as nat),
        decreases 12 - i,
    {
        out.push(0u8);
        proof {
            assert(out@ =~= zeros((i + 1) as nat));
        }
        i = i + 1;
    }
    crate::encode::push_bytes(&mut out, a);
    out
}

fn make_fixed_bytes_word(b: &Vec<u8>, n: usize) -> (r: Vec<u8>)
    requires
        b@.len() == n,
        n <= 32,
    ensures
        r@ == b@ + zeros((32 - n) as nat),
{
    let mut out = copy_bytes(b);
    let mut i: usize = 0;
    while i < 32 - n
        invariant
            n <= 32,
            i <= 32 - n,
            out@ == b@ + zeros(i as nat),
        decreases 32 - n - i,
    {
        out.push(0u8);
        proof {
            assert(out@ =~= b@ + zeros((i + 1) as nat));
        }
        i = i + 1;
    }
    proof {
        assert(b@ + zeros(0) =~= b@);
    }
    out
}

/// Every byte of `w` in `[a, b)` is zero.
fn bytes_zero_range(w: &Vec<u8>, a: usize, b: usize) -> (r: bool)
    requires
        a <= b <= w@.len(),
    ensures
        r == forall|i: int| a <= i < b ==> w@[i] == 0,
{
    let mut i: usize = a;
    while i < b
        invariant
            a <= i <= b <= w@.len(),
            forall|p: int| a <= p < i ==> w@[p] == 0,
        decreases b - i,
    {
        if w[i] != 0 {
            return false;
        }
        i = i + 1;
    }
    true
}

/// An element of a well-formed uniform value list is well-formed.
pub proof fn lemma_wf_unif_index(e: SolType, xs: Seq<ValueV>, i: int)
    requires
        wf_values_unif(e, xs),
        0 <= i < xs.len(),
    ensures
        wf_value(e, xs[i]),
    decreases xs.len(),
{
    if i < xs.len() - 1 {
        assert(xs.drop_last()[i] == xs[i]);
        lemma_wf_unif_index(e, xs.drop_last(), i);
    }
}

pub proof fn lemma_wf_list_index(tys: Seq<SolType>, xs: Seq<ValueV>, i: int)
    requires
        wf_values_list(tys, xs),
        0 <= i < tys.len(),
    ensures
        wf_value(tys[i], xs[i]),
    decreases tys.len(),
{
    if i < tys.len() - 1 {
        assert(tys.drop_last()[i] == tys[i]);
        assert(xs.drop_last()[i] == xs[i]);
        lemma_wf_list_index(tys.drop_last(), xs.drop_last(), i);
    }
}

pub proof fn lemma_wf_type_list_index(tys: Seq<SolType>, i: int)
    requires
        wf_type_list(tys),
        0 <= i < tys.len(),
    ensures
        wf_type(tys[i]),
    decreases i,
{
    if i > 0 {
        lemma_wf_type_list_index(tys.drop_first(), i - 1);
    }
}

impl SolType {
    /// Turns a well-formed native value of this type into its token; never
    /// fails.
    #[verifier::loop_isolation(false)]
    pub fn tokenize(&self, v: &Value) -> (t: Token)
        requires
            wf_type(*self),
            wf_value(*self, v@),
        ensures
            t@ == spec_tokenize(*self, v@),
        decreases *self, *v, 0int,
    {
        match (self, v) {
            (SolType::Bool, Value::Bool(b)) => Token::Word(make_bool_word(*b)),
            (SolType::Uint(_), Value::Uint(w)) => Token::Word(copy_bytes(w)),
            (SolType::Int(_), Value::Int(w)) => Token::Word(copy_bytes(w)),
            (SolType::Address, Value::Address(a)) => Token::Word(make_address_word(a)),
            (SolType::FixedBytes(n), Value::FixedBytes(b)) => Token::Word(
                make_fixed_bytes_word(b, *n),
            ),
            (SolType::Bytes, Value::Bytes(b)) => Token::PackedBytes(copy_bytes(b)),
            (SolType::Str, Value::Str(b)) => Token::PackedBytes(copy_bytes(b)),
            (SolType::Array(e), Value::List(xs)) => {
                let ks = tokenize_children_unif(e, xs);
                Token::DynSeq(ks)
            },
            (SolType::FixedArray(e, _), Value::List(xs)) => {
                let ks = tokenize_children_unif(e, xs);
                Token::FixedSeq(ks)
            },
            (SolType::Tuple(ts), Value::List(xs)) => {
                let ks = tokenize_children_list(ts, xs);
                Token::FixedSeq(ks)
            },
            _ => {
                proof {
                    assert(false);
                }
                Token::PackedBytes(Vec::new())
            },
        }
    }

    /// Turns a shape-matching token back into a native value; total on
    /// matching tokens whether or not their bit patterns are valid.
    #[verifier::loop_isolation(false)]
    pub fn detokenize(&self, t: &Token) -> (v: Value)
        requires
            wf_type(*self),
            token_matches(*self, t@),
        ensures
            v@ == spec_detokenize(*self, t@),
        decreases *self, *t, 0int,
    {
        match (self, t) {
            (SolType::Bool, Token::Word(w)) => {
                let mut i: usize = 0;
                let mut nz = false;
                while i < w.len()
                    invariant
                        i <= w@.len(),
                        nz == exists|p: int| 0 <= p < i && w@[p] != 0,
                    decreases w@.len() - i,
                {
                    if w[i] != 0 {
                        nz = true;
                    }
                    i = i + 1;
                }
                proof {
                    assert(nz == word_nonzero(w@));
                }
                Value::Bool(nz)
            },
            (SolType::Uint(_), Token::Word(w)) => Value::Uint(copy_bytes(w)),
            (SolType::Int(_), Token::Word(w)) => Value::Int(copy_bytes(w)),
            (SolType::Address, Token::Word(w)) => Value::Address(sub_bytes(w, 12, 32)),
            (SolType::FixedBytes(n), Token::Word(w)) => Value::FixedBytes(sub_bytes(w, 0, *n)),
            (SolType::Bytes, Token::PackedBytes(b)) => Value::Bytes(copy_bytes(b)),
            (SolType::Str, Token::PackedBytes(b)) => Value::Str(copy_bytes(b)),
            (SolType::Array(e), Token::DynSeq(ks)) => Value::List(detokenize_children_unif(e, ks)),
            (SolType::FixedArray(e, _), Token::FixedSeq(ks)) => Value::List(
                detokenize_children_unif(e, ks),
            ),
            (SolType::Tuple(ts), Token::FixedSeq(ks)) => Value::List(
                detokenize_children_list(ts, ks),
            ),
            _ => {
                proof {
                    assert(false);
                }
                Value::Bool(false)
            },
        }
    }

    /// Whether the token can be detokenized as this type: right shape and
    /// valid bit patterns.
    #[verifier::loop_isolation(false)]
    pub fn valid_token(&self, t: &Token) -> (r: bool)
        ensures
            r == spec_valid_token(*self, t@),
        decreases *self, *t, 0int,
    {
        match (self, t) {
            (SolType::Bool, Token::Word(w)) => {
                if w.len() != 32 {
                    return false;
                }
                let z = bytes_zero_range(w, 0, 31);
                z && (w[31] == 0 || w[31] == 1)
            },
            (SolType::Uint(bits), Token::Word(w)) => {
                if w.len() != 32 {
                    return false;
                }
                let k = bits / 8;
                if k >= 32 {
                    proof {
                        assert(valid_uint_word(w@, *bits as nat));
                    }
                    true
                } else {
                    bytes_zero_range(w, 0, 32 - k)
                }
            },
            (SolType::Int(bits), Token::Word(w)) => {
                if w.len() != 32 {
                    return false;
                }
                let kk = bits / 8;
                if kk >= 32 {
                    proof {
                        assert(valid_int_word(w@, *bits as nat));
                    }
                    true
                } else {
                    let k = 32 - kk;
                    if k == 32 {
                        true
                    } else {
                        let ext: u8 = if w[k] >= 128 {
                            255
                        } else {
                            0
                        };
                        let mut i: usize = 0;
                        let mut ok = true;
                        while i < k
                            invariant
                                i <= k < 32,
                                ext == (if w@[k as int] >= 128 {
                                    255u8
                                } else {
                                    0u8
                                }),
                                ok == forall|p: int| 0 <= p < i ==> w@[p] == ext,
                            decreases k - i,
                        {
                            if w[i] != ext {
                                ok = false;
                            }
                            i = i + 1;
                        }
                        proof {
                            assert(ok == valid_int_word(w@, *bits as nat));
                        }
                        ok
                    }
                }
            },
            (SolType::Address, Token::Word(w)) => {
                if w.len() != 32 {
                    return false;
                }
                bytes_zero_range(w, 0, 12)
            },
            (SolType::FixedBytes(n), Token::Word(w)) => {
                if w.len() != 32 {
                    return false;
                }
                if *n >= 32 {
                    proof {
                        assert(valid_fixed_bytes_word(w@, *n as nat));
                    }
                    true
                } else {
                    bytes_zero_range(w, *n, 32)
                }
            },
            (SolType::Bytes, Token::PackedBytes(_)) => true,
            (SolType::Str, Token::PackedBytes(_)) => true,
            (SolType::Array(e), Token::DynSeq(ks)) => valid_children_unif(e, ks),
            (SolType::FixedArray(e, n), Token::FixedSeq(ks)) => {
                proof {
                    lemma_token_views_index(ks@);
                }
                if ks.len() != *n {
                    return false;
                }
                valid_children_unif(e, ks)
            },
            (SolType::Tuple(ts), Token::FixedSeq(ks)) => valid_children_list(ts, ks),
            _ => false,
        }
    }
}

#[verifier::loop_isolation(false)]
fn tokenize_children_unif(e: &SolType, xs: &Vec<Value>) -> (r: Vec<Token>)
    requires
        wf_type(*e),
        wf_values_unif(*e, value_views(xs@)),
    ensures
        token_views(r@) == tokenize_unif(*e, value_views(xs@)),
        r@.len() == xs@.len(),
    decreases *e, xs@, 1int,
{
    let ghost vv = value_views(xs@);
    proof {
        lemma_value_views_index(xs@);
    }
    let mut out: Vec<Token> = Vec::new();
    let mut i: usize = 0;
    while i < xs.len()
        invariant
            i <= xs@.len(),
            out@.len() == i,
            token_views(out@) == tokenize_unif(*e, vv.take(i as int)),
        decreases xs@.len() - i,
    {
        proof {
            lemma_wf_unif_index(*e, vv, i as int);
        }
        let t = e.tokenize(&xs[i]);
        let ghost oldout = out@;
        out.push(t);
        proof {
            assert(out@.drop_last() =~= oldout);
            assert(vv.take(i + 1).drop_last() =~= vv.take(i as int));
            assert(vv.take(i + 1).last() == vv[i as int]);
            assert(token_views(out@) =~= tokenize_unif(*e, vv.take(i + 1)));
        }
        i = i + 1;
    }
    proof {
        assert(vv.take(vv.len() as int) =~= vv);
    }
    out
}

#[verifier::loop_isolation(false)]
fn tokenize_children_list(tys: &Vec<SolType>, xs: &Vec<Value>) -> (r: Vec<Token>)
    requires
        wf_type_list(tys@),
        wf_values_list(tys@, value_views(xs@)),
    ensures
        token_views(r@) == tokenize_list(tys@, value_views(xs@)),
        r@.len() == xs@.len(),
    decreases tys@, xs@, 1int,
{
    let ghost vv = value_views(xs@);
    proof {
        lemma_value_views_index(xs@);
    }
    let mut out: Vec<Token> = Vec::new();
    let mut i: usize = 0;
    while i < xs.len()
        invariant
            i <= xs@.len(),
            out@.len() == i,
            token_views(out@) == tokenize_list(tys@.take(i as int), vv.take(i as int)),
        decreases xs@.len() - i,
    {
        proof {
            lemma_wf_list_index(tys@, vv, i as int);
            lemma_wf_type_list_index(tys@, i as int);
        }
        let t = tys[i].tokenize(&xs[i]);
        let ghost oldout = out@;
        out.push(t);
        proof {
            assert(out@.drop_last() =~= oldout);
            assert(vv.take(i + 1).drop_last() =~= vv.take(i as int));
            assert(tys@.take(i + 1).drop_last() =~= tys@.take(i as int));
            assert(vv.take(i + 1).last() == vv[i as int]);
            assert(tys@.take(i + 1).last() == tys@[i as int]);
            assert(token_views(out@) =~= tokenize_list(tys@.take(i + 1), vv.take(i + 1)));
        }
        i = i + 1;
    }
    proof {
        assert(vv.take(vv.len() as int) =~= vv);
        assert(tys@.take(tys@.len() as int) =~= tys@);
    }
    out
}

#[verifier::loop_isolation(false)]
fn detokenize_children_unif(e: &SolType, ks: &Vec<Token>) -> (r: Vec<Value>)
    requires
        wf_type(*e),
        tokens_match_unif(*e, token_views(ks@)),
    ensures
        value_views(r@) == detokenize_unif(*e, token_views(ks@)),
        r@.len() == ks@.len(),
    decreases *e, ks@, 1int,
{
    let ghost kv = token_views(ks@);
    proof {
        lemma_token_views_index(ks@);
    }
    let mut out: Vec<Value> = Vec::new();
    let mut i: usize = 0;
    while i < ks.len()
        invariant
            i <= ks@.len(),
            out@.len() == i,
            value_views(out@) == detokenize_unif(*e, kv.take(i as int)),
        decreases ks@.len() - i,
    {
        proof {
            lemma_match_unif_index(*e, kv, i as int);
        }
        let v = e.detokenize(&ks[i]);
        let ghost oldout = out@;
        out.push(v);
        proof {
            assert(out@.drop_last() =~= oldout);
            assert(kv.take(i + 1).drop_last() =~= kv.take(i as int));
            assert(kv.take(i + 1).last() == kv[i as int]);
            assert(value_views(out@) =~= detokenize_unif(*e, kv.take(i + 1)));
        }
        i = i + 1;
    }
    proof {
        assert(kv.take(kv.len() as int) =~= kv);
    }
    out
}

#[verifier::loop_isolation(false)]
fn detokenize_children_list(tys: &Vec<SolType>, ks: &Vec<Token>) -> (r: Vec<Value>)
    requires
        wf_type_list(tys@),
        tokens_match_list(tys@, token_views(ks@)),
    ensures
        value_views(r@) == detokenize_list(tys@, token_views(ks@)),
        r@.len() == ks@.len(),
    decreases tys@, ks@, 1int,
{
    let ghost kv = token_views(ks@);
    proof {
        lemma_token_views_index(ks@);
    }
    let mut out: Vec<Value> = Vec::new();
    let mut i: usize = 0;
    while i < ks.len()
        invariant
            i <= ks@.len(),
            out@.len() == i,
            value_views(out@) == detokenize_list(tys@.take(i as int), kv.take(i as int)),
        decreases ks@.len() - i,
    {
        proof {
            lemma_match_list_index(tys@, kv, i as int);
            lemma_wf_type_list_index(tys@, i as int);
        }
        let v = tys[i].detokenize(&ks[i]);
        let ghost oldout = out@;
        out.push(v);
        proof {
            assert(out@.drop_last() =~= oldout);
            assert(kv.take(i + 1).drop_last() =~= kv.take(i as int));
            assert(tys@.take(i + 1).drop_last() =~= tys@.take(i as int));
            assert(kv.take(i + 1).last() == kv[i as int]);
            assert(tys@.take(i + 1).last() == tys@[i as int]);
            assert(value_views(out@) =~= detokenize_list(tys@.take(i + 1), kv.take(i + 1)));
        }
        i = i + 1;
    }
    proof {
        assert(kv.take(kv.len() as int) =~= kv);
        assert(tys@.take(tys@.len() as int) =~= tys@);
    }
    out
}

#[verifier::loop_isolation(false)]
fn valid_children_unif(e: &SolType, ks: &Vec<Token>) -> (r: bool)
    ensures
        r == tokens_valid_unif(*e, token_views(ks@)),
    decreases *e, ks@, 1int,
{
    let ghost kv = token_views(ks@);
    proof {
        lemma_token_views_index(ks@);
    }
    let mut i: usize = 0;
    let mut ok = true;
    while i < ks.len()
        invariant
            i <= ks@.len(),
            ok == tokens_valid_unif(*e, kv.take(i as int)),
        decreases ks@.len() - i,
    {
        let v = e.valid_token(&ks[i]);
        proof {
            assert(kv.take(i + 1).drop_last() =~= kv.take(i as int));
            assert(kv.take(i + 1).last() == kv[i as int]);
        }
        ok = ok && v;
        i = i + 1;
    }
    proof {
        assert(kv.take(kv.len() as int) =~= kv);
    }
    ok
}

#[verifier::loop_isolation(false)]
fn valid_children_list(tys: &Vec<SolType>, ks: &Vec<Token>) -> (r: bool)
    ensures
        r == tokens_valid_list(tys@, token_views(ks@)),
    decreases tys@, ks@, 1int,
{
    let ghost kv = token_views(ks@);
    proof {
        lemma_token_views_index(ks@);
    }
    if ks.len() != tys.len() {
        return false;
    }
    let mut i: usize = 0;
    let mut ok = true;
    while i < ks.len()
        invariant
            i <= ks@.len(),
            ks@.len() == tys@.len(),
            ok == tokens_valid_list(tys@.take(i as int), kv.take(i as int)),
        decreases ks@.len() - i,
    {
        let v = tys[i].valid_token(&ks[i]);
        proof {
            assert(kv.take(i + 1).drop_last() =~= kv.take(i as int));
            assert(tys@.take(i + 1).drop_last() =~= tys@.take(i as int));
            assert(kv.take(i + 1).last() == kv[i as int]);
            assert(tys@.take(i + 1).last() == tys@[i as int]);
        }
        ok = ok && v;
        i = i + 1;
    }
    proof {
        assert(kv.take(kv.len() as int) =~= kv);
        assert(tys@.take(tys@.len() as int) =~= tys@);
    }
    ok
}

impl Token {
    /// A short human-readable rendering of the token, used in type-check
    /// errors: its byte contents in decimal, or its child count.
    pub(crate) fn repr(&self) -> String {
        let mut s = String::from_str("");
        match self {
            Token::Word(w) => {
                s.append("word[");
                append_byte_list(&mut s, w);
                s.append("]");
            },
            Token::PackedBytes(b) => {
                s.append("bytes[");
                append_byte_list(&mut s, b);
                s.append("]");
            },
            Token::FixedSeq(ks) => {
                s.append("seq(");
                crate::ty::push_dec(&mut s, ks.len());
                s.append(" children)");
            },
            Token::DynSeq(ks) => {
                s.append("seq(");
                crate::ty::push_dec(&mut s, ks.len());
                s.append(" children)");
            },
        }
        s
    }
}

fn append_byte_list(s: &mut String, b: &Vec<u8>)
{
    let mut i: usize = 0;
    while i < b.len()
        decreases b@.len() - i,
    {
        if i > 0 {
            s.append(",");
        }
        crate::ty::push_dec(s, b[i] as usize);
        i = i + 1;
    }
}

impl SolType {
    /// Checks a token against this type's validation rules; an error carries
    /// the type's canonical name and a rendering of the offending token.
    pub fn type_check(&self, token: &Token) -> (r: Result<(), Error>)
        ensures
            r is Ok <==> spec_valid_token(*self, token@),
            r matches Err(e) ==> e matches Error::TypeCheckFail { ty_name, .. }
                && ty_name@ == spec_name(*self),
    {
        if self.valid_token(token) {
            Ok(())
        } else {
            Err(
                Error::TypeCheckFail {
                    ty_name: self.sol_type_name(),
                    token: token.repr(),
                },
            )
        }
    }
}

/// Validates (when asked) and detokenizes a parsed token, as the decoding
/// entry points do after parsing.
pub fn check_decode(ty: &SolType, token: &Token, validate: bool) -> (r: Result<Value, Error>)
    requires
        wf_type(*ty),
        token_matches(*ty, token@),
    ensures
        r matches Ok(v) <==> (!validate || spec_valid_token(*ty, token@)),
        r matches Ok(v) ==> v@ == spec_detokenize(*ty, token@),
        r matches Err(e) ==> e matches Error::TypeCheckFail { ty_name, .. }
            && ty_name@ == spec_name(*ty),
{
    if validate {
        match ty.type_check(token) {
            Ok(_) => {},
            Err(e) => {
                return Err(e);
            },
        }
    }
    Ok(ty.detokenize(token))
}

} // verus!
