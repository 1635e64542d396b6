use vstd::prelude::*;
use vstd::string::StringExecFns;

verus! {

/// A Solidity type descriptor: a value that stands for one Solidity type and
/// carries no per-value data. Widths of `Uint`/`Int` are in bits, sizes of
/// `FixedBytes` in bytes.
pub enum SolType {
    Bool,
    Uint(usize),
    Int(usize),
    Address,
    FixedBytes(usize),
    Bytes,
    Str,
    Array(Box<SolType>),
    FixedArray(Box<SolType>, usize),
    Tuple(Vec<SolType>),
}

/// The type is one a Solidity source could declare: integer widths are
/// multiples of 8 up to 256, fixed byte strings hold 1 to 32 bytes.
pub open spec fn wf_type(ty: SolType) -> bool
    decreases ty, 0int,
{
    match ty {
        SolType::Bool => true,
        SolType::Uint(w) => 0 < w <= 256 && w % 8 == 0,
        SolType::Int(w) => 0 < w <= 256 && w % 8 == 0,
        SolType::Address => true,
        SolType::FixedBytes(n) => 0 < n <= 32,
        SolType::Bytes => true,
        SolType::Str => true,
        SolType::Array(e) => wf_type(*e),
        SolType::FixedArray(e, _) => wf_type(*e),
        SolType::Tuple(ts) => wf_type_list(ts@),
    }
}

pub open spec fn wf_type_list(tys: Seq<SolType>) -> bool
    decreases tys, 1int,
{
    if tys.len() == 0 {
        true
    } else {
        wf_type(tys[0]) && wf_type_list(tys.drop_first())
    }
}

/// Whether the encoded size of the type depends on the value.
pub open spec fn spec_dynamic(ty: SolType) -> bool
    decreases ty, 0int,
{
    match ty {
        SolType::Bytes => true,
        SolType::Str => true,
        SolType::Array(_) => true,
        SolType::FixedArray(e, _) => spec_dynamic(*e),
        SolType::Tuple(ts) => spec_any_dynamic(ts@),
        _ => false,
    }
}

pub open spec fn spec_any_dynamic(tys: Seq<SolType>) -> bool
    decreases tys, 1int,
{
    if tys.len() == 0 {
        false
    } else {
        spec_dynamic(tys[0]) || spec_any_dynamic(tys.drop_first())
    }
}

/// Encoded byte count of a static type; meaningful only when the type is not
/// dynamic.
pub open spec fn static_size(ty: SolType) -> nat
    decreases ty, 0int,
{
    match ty {
        SolType::FixedArray(e, n) => (n * static_size(*e)) as nat,
        SolType::Tuple(ts) => static_size_list(ts@),
        _ => 32,
    }
}

pub open spec fn static_size_list(tys: Seq<SolType>) -> nat
    decreases tys, 1int,
{
    if tys.len() == 0 {
        0
    } else {
        static_size(tys[0]) + static_size_list(tys.drop_first())
    }
}

/// Head bytes one element of this type occupies in a sequence encoding: one
/// offset word if dynamic, its full static size otherwise.
pub open spec fn head_width(ty: SolType) -> nat {
    if spec_dynamic(ty) {
        32
    } else {
        static_size(ty)
    }
}

pub open spec fn head_width_list(tys: Seq<SolType>) -> nat
    decreases tys,
{
    if tys.len() == 0 {
        0
    } else {
        head_width(tys[0]) + head_width_list(tys.drop_first())
    }
}

/// Decimal rendering of `n`, most significant digit first.
pub open spec fn dec_str(n: nat) -> Seq<char>
    decreases n,
{
    if n < 10 {
        seq![digit_char(n)]
    } else {
        dec_str(n / 10).push(digit_char(n % 10))
    }
}

pub open spec fn digit_char(d: nat) -> char {
    ((48 + d) as u8) as char
}

/// The canonical Solidity rendering of the type.
pub open spec fn spec_name(ty: SolType) -> Seq<char>
    decreases ty, 0int,
{
    match ty {
        SolType::Bool => "bool"@,
        SolType::Uint(w) => "uint"@ + dec_str(w as nat),
        SolType::Int(w) => "int"@ + dec_str(w as nat),
        SolType::Address => "address"@,
        SolType::FixedBytes(n) => "bytes"@ + dec_str(n as nat),
        SolType::Bytes => "bytes"@,
        SolType::Str => "string"@,
        SolType::Array(e) => spec_name(*e) + "[]"@,
        SolType::FixedArray(e, n) => spec_name(*e) + "["@ + dec_str(n as nat) + "]"@,
        SolType::Tuple(ts) => "("@ + spec_name_list(ts@) + ")"@,
    }
}

/// Comma-separated renderings of the member types.
pub open spec fn spec_name_list(tys: Seq<SolType>) -> Seq<char>
    decreases tys, 1int,
{
    if tys.len() == 0 {
        Seq::empty()
    } else if tys.len() == 1 {
        spec_name(tys[0])
    } else {
        spec_name_list(tys.drop_last()) + ","@ + spec_name(tys.last())
    }
}

fn push_digit(s: &mut String, d: usize)
    requires
        d < 10,
    ensures
        final(s)@ == old(s)@ + seq![digit_char(d as nat)],
{
    proof {
        reveal_strlit("0");
        reveal_strlit("1");
        reveal_strlit("2");
        reveal_strlit("3");
        reveal_strlit("4");
        reveal_strlit("5");
        reveal_strlit("6");
        reveal_strlit("7");
        reveal_strlit("8");
        reveal_strlit("9");
    }
    if d == 0 {
        s.append("0");
    } else if d == 1 {
        s.append("1");
    } else if d == 2 {
        s.append("2");
    } else if d == 3 {
        s.append("3");
    } else if d == 4 {
        s.append("4");
    } else if d == 5 {
        s.append("5");
    } else if d == 6 {
        s.append("6");
    } else if d == 7 {
        s.append("7");
    } else if d == 8 {
        s.append("8");
    } else {
        s.append("9");
    }
    proof {
        assert(final(s)@ =~= old(s)@ + seq![digit_char(d as nat)]);
    }
}

/// Appends the decimal rendering of `n` to `s`.
pub(crate) fn push_dec(s: &mut String, n: usize)
    ensures
        final(s)@ == old(s)@ + dec_str(n as nat),
{
    // digits of n, least significant first
    let mut digits: Vec<usize> = Vec::new();
    let mut m: usize = n;
    while m >= 10
        invariant
            forall|p: int| 0 <= p < digits@.len() ==> digits@[p] < 10,
            digits@.len() == 0 ==> m == n,
            digits@.len() > 0 ==> dec_str(n as nat) == dec_str(m as nat) + rev_digits(digits@),
        decreases m,
    {
        let d = m % 10;
        let ghost olddigits = digits@;
        digits.push(d);
        proof {
            lemma_rev_digits_push(digits@);
            assert(dec_str(m as nat) == dec_str((m / 10) as nat).push(digit_char((m % 10) as nat)));
            assert(dec_str((m / 10) as nat).push(digit_char((m % 10) as nat)) =~= dec_str(
                (m / 10) as nat,
            ) + seq![digit_char((m % 10) as nat)]);
            if olddigits.len() == 0 {
                assert(dec_str(n as nat) =~= dec_str((m / 10) as nat) + rev_digits(digits@));
            } else {
                assert(dec_str(n as nat) =~= dec_str((m / 10) as nat) + rev_digits(digits@));
            }
        }
        m = m / 10;
    }
    let ghost olddigits = digits@;
    digits.push(m);
    proof {
        lemma_rev_digits_push(digits@);
        assert(dec_str(m as nat) =~= seq![digit_char(m as nat)]);
        if olddigits.len() == 0 {
            assert(dec_str(n as nat) =~= rev_digits(digits@));
        } else {
            assert(dec_str(n as nat) =~= rev_digits(digits@));
        }
    }
    let k = digits.len();
    let mut i: usize = 0;
    while i < k
        invariant
            k == digits@.len(),
            i <= k,
            forall|p: int| 0 <= p < digits@.len() ==> digits@[p] < 10,
            s@ == old(s)@ + rev_digits(digits@).take(i as int),
            dec_str(n as nat) == rev_digits(digits@),
        decreases k - i,
    {
        push_digit(s, digits[k - 1 - i]);
        proof {
            assert(rev_digits(digits@)[i as int] == digit_char(digits@[k - 1 - i] as nat));
            assert(s@ =~= old(s)@ + rev_digits(digits@).take(i + 1));
        }
        i = i + 1;
    }
    proof {
        assert(rev_digits(digits@).take(k as int) =~= rev_digits(digits@));
    }
}

/// The digit characters of `ds` in reverse order.
pub open spec fn rev_digits(ds: Seq<usize>) -> Seq<char> {
    Seq::new(ds.len(), |i: int| digit_char(ds[ds.len() - 1 - i] as nat))
}

proof fn lemma_rev_digits_push(ds: Seq<usize>)
    requires
        ds.len() > 0,
    ensures
        rev_digits(ds) == seq![digit_char(ds.last() as nat)] + rev_digits(ds.drop_last()),
{
    assert(rev_digits(ds) =~= seq![digit_char(ds.last() as nat)] + rev_digits(ds.drop_last()));
}

impl SolType {
    /// Whether the encoded size of this type depends on the value.
    #[verifier::loop_isolation(false)]
    pub fn dynamic(&self) -> (r: bool)
        ensures
            r == spec_dynamic(*self),
        decreases *self,
    {
        match self {
            SolType::Bytes => true,
            SolType::Str => true,
            SolType::Array(_) => true,
            SolType::FixedArray(e, _) => e.dynamic(),
            SolType::Tuple(ts) => {
                let mut i: usize = 0;
                let mut found = false;
                while i < ts.len()
                    invariant
                        i <= ts@.len(),
                        found == spec_any_dynamic(ts@.take(i as int)),
                    decreases ts@.len() - i,
                {
                    proof {
                        vstd::std_specs::vec::axiom_vec_index_decreases(*ts, i as int);
                        assert(decreases_to!(*self => ts@[i as int]));
                        lemma_any_dynamic_take(ts@, i as int);
                    }
                    let d = ts[i].dynamic();
                    found = found || d;
                    i = i + 1;
                }
                proof {
                    assert(ts@.take(ts@.len() as int) =~= ts@);
                }
                found
            },
            _ => false,
        }
    }

    /// The encoded byte count if it is fixed by the type alone; `None` exactly
    /// when the type is dynamic.
    #[verifier::loop_isolation(false)]
    pub fn encoded_size(&self) -> (r: Option<usize>)
        requires
            !spec_dynamic(*self) ==> static_size(*self) <= usize::MAX,
        ensures
            r is None <==> spec_dynamic(*self),
            r matches Some(k) ==> k == static_size(*self),
        decreases *self,
    {
        match self {
            SolType::Bytes => None,
            SolType::Str => None,
            SolType::Array(_) => None,
            SolType::FixedArray(e, n) => {
                if e.dynamic() {
                    None
                } else if *n == 0 {
                    proof {
                        assert(static_size(*self) == (*n as nat) * static_size(**e));
                        assert((0nat) * static_size(**e) == 0) by (nonlinear_arith);
                    }
                    Some(0)
                } else {
                    proof {
                        lemma_mul_le(*n as nat, static_size(**e));
                    }
                    let se = e.encoded_size();
                    match se {
                        Some(k) => {
                            proof {
                                assert((*n as nat) * (k as nat) == (*n as nat) * static_size(**e));
                            }
                            Some(*n * k)
                        },
                        None => None,  // unreachable
                    }
                }
            },
            SolType::Tuple(ts) => {
                let dy = self.dynamic();
                if dy {
                    None
                } else {
                    let mut i: usize = 0;
                    let mut total: usize = 0;
                    while i < ts.len()
                        invariant
                            i <= ts@.len(),
                            total == static_size_list(ts@.take(i as int)),
                            !spec_any_dynamic(ts@),
                            static_size_list(ts@) <= usize::MAX,
                        decreases ts@.len() - i,
                    {
                        proof {
                            vstd::std_specs::vec::axiom_vec_index_decreases(*ts, i as int);
                        assert(decreases_to!(*self => ts@[i as int]));
                            lemma_static_size_list_take(ts@, i as int);
                            lemma_static_size_list_prefix_bound(ts@, (i + 1) as int);
                            lemma_any_dynamic_element(ts@, i as int);
                        }
                        let se = ts[i].encoded_size();
                        match se {
                            Some(k) => {
                                total = total + k;
                            },
                            None => {},  // unreachable
                        }
                        i = i + 1;
                    }
                    proof {
                        assert(ts@.take(ts@.len() as int) =~= ts@);
                    }
                    Some(total)
                }
            },
            _ => Some(32),
        }
    }

    /// The canonical Solidity name of the type.
    pub fn sol_type_name(&self) -> (r: String)
        ensures
            r@ == spec_name(*self),
        decreases *self,
    {
        let mut out = String::from_str("");
        proof {
            reveal_strlit("");
            assert(out@ =~= Seq::<char>::empty());
        }
        self.append_name(&mut out);
        proof {
            assert(Seq::<char>::empty() + spec_name(*self) =~= spec_name(*self));
        }
        out
    }

    #[verifier::loop_isolation(false)]
    fn append_name(&self, out: &mut String)
        ensures
            final(out)@ == old(out)@ + spec_name(*self),
        decreases *self,
    {
        match self {
            SolType::Bool => out.append("bool"),
            SolType::Uint(w) => {
                out.append("uint");
                push_dec(out, *w);
                proof {
                    assert(final(out)@ =~= old(out)@ + spec_name(*self));
                }
            },
            SolType::Int(w) => {
                out.append("int");
                push_dec(out, *w);
                proof {
                    assert(final(out)@ =~= old(out)@ + spec_name(*self));
                }
            },
            SolType::Address => out.append("address"),
            SolType::FixedBytes(n) => {
                out.append("bytes");
                push_dec(out, *n);
                proof {
                    assert(final(out)@ =~= old(out)@ + spec_name(*self));
                }
            },
            SolType::Bytes => out.append("bytes"),
            SolType::Str => out.append("string"),
            SolType::Array(e) => {
                e.append_name(out);
                out.append("[]");
                proof {
                    assert(final(out)@ =~= old(out)@ + spec_name(*self));
                }
            },
            SolType::FixedArray(e, n) => {
                e.append_name(out);
                out.append("[");
                push_dec(out, *n);
                out.append("]");
                proof {
                    assert(final(out)@ =~= old(out)@ + spec_name(*self));
                }
            },
            SolType::Tuple(ts) => {
                out.append("(");
                let mut i: usize = 0;
                while i < ts.len()
                    invariant
                        i <= ts@.len(),
                        out@ == old(out)@ + "("@ + spec_name_list(ts@.take(i as int)),
                    decreases ts@.len() - i,
                {
                    proof {
                        vstd::std_specs::vec::axiom_vec_index_decreases(*ts, i as int);
                        assert(decreases_to!(*self => ts@[i as int]));
                    }
                    if i > 0 {
                        out.append(",");
                    }
                    ts[i].append_name(out);
                    proof {
                        assert(ts@.take(i + 1).drop_last() =~= ts@.take(i as int));
                        assert(ts@.take(i + 1).last() == ts@[i as int]);
                        if i == 0 {
                            assert(ts@.take(0) =~= Seq::<SolType>::empty());
                            assert(out@ =~= old(out)@ + "("@ + spec_name_list(ts@.take(1)));
                        } else {
                            assert(spec_name_list(ts@.take(i + 1)) == spec_name_list(
                                ts@.take(i as int),
                            ) + ","@ + spec_name(ts@[i as int]));
                            assert(out@ =~= old(out)@ + "("@ + spec_name_list(ts@.take(i + 1)));
                        }
                    }
                    i = i + 1;
                }
                out.append(")");
                proof {
                    assert(ts@.take(ts@.len() as int) =~= ts@);
                    assert(final(out)@ =~= old(out)@ + spec_name(*self));
                }
            },
        }
    }
}

proof fn lemma_mul_le(n: nat, k: nat)
    requires
        n * k <= usize::MAX,
    ensures
        k <= usize::MAX || n == 0,
        n > 0 ==> k <= n * k,
{
    if n > 0 {
        assert(k <= n * k) by (nonlinear_arith)
            requires n >= 1, k >= 0;
    }
}

pub proof fn lemma_any_dynamic_take(tys: Seq<SolType>, i: int)
    requires
        0 <= i < tys.len(),
    ensures
        spec_any_dynamic(tys.take(i + 1)) == (spec_any_dynamic(tys.take(i)) || spec_dynamic(
            tys[i],
        )),
    decreases i,
{
    if i == 0 {
        assert(tys.take(1) =~= seq![tys[0]]);
        assert(tys.take(0) =~= Seq::<SolType>::empty());
        assert(seq![tys[0]].drop_first() =~= Seq::<SolType>::empty());
    } else {
        lemma_any_dynamic_take(tys.drop_first(), i - 1);
        assert(tys.take(i + 1).drop_first() =~= tys.drop_first().take(i));
        assert(tys.take(i).drop_first() =~= tys.drop_first().take(i - 1));
        assert(tys.take(i + 1)[0] == tys[0]);
        assert(tys.take(i)[0] == tys[0]);
        assert(tys.drop_first()[i - 1] == tys[i]);
    }
}

/// A member of a list with no dynamic member is itself not dynamic.
pub proof fn lemma_any_dynamic_element(tys: Seq<SolType>, i: int)
    requires
        0 <= i < tys.len(),
        !spec_any_dynamic(tys),
    ensures
        !spec_dynamic(tys[i]),
    decreases i,
{
    if i > 0 {
        lemma_any_dynamic_element(tys.drop_first(), i - 1);
    }
}

pub proof fn lemma_static_size_list_take(tys: Seq<SolType>, i: int)
    requires
        0 <= i < tys.len(),
    ensures
        static_size_list(tys.take(i + 1)) == static_size_list(tys.take(i)) + static_size(tys[i]),
    decreases i,
{
    if i == 0 {
        assert(tys.take(1) =~= seq![tys[0]]);
        assert(tys.take(0) =~= Seq::<SolType>::empty());
        assert(seq![tys[0]].drop_first() =~= Seq::<SolType>::empty());
    } else {
        lemma_static_size_list_take(tys.drop_first(), i - 1);
        assert(tys.take(i + 1).drop_first() =~= tys.drop_first().take(i));
        assert(tys.take(i).drop_first() =~= tys.drop_first().take(i - 1));
        assert(tys.take(i + 1)[0] == tys[0]);
        assert(tys.take(i)[0] == tys[0]);
        assert(tys.drop_first()[i - 1] == tys[i]);
    }
}

/// The size of a prefix is at most the size of the whole list.
pub proof fn lemma_static_size_list_prefix_bound(tys: Seq<SolType>, i: int)
    requires
        0 <= i <= tys.len(),
    ensures
        static_size_list(tys.take(i)) <= static_size_list(tys),
    decreases tys.len(),
{
    if i == 0 {
        assert(tys.take(0) =~= Seq::<SolType>::empty());
    } else if tys.len() > 0 {
        lemma_static_size_list_prefix_bound(tys.drop_first(), i - 1);
        assert(tys.take(i).drop_first() =~= tys.drop_first().take(i - 1));
        assert(tys.take(i)[0] == tys[0]);
    }
}

} // verus!
