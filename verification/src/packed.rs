use vstd::prelude::*;
use crate::token::{Value, ValueV, value_views, wf_value, wf_values_unif, wf_values_list,
    lemma_value_views_index};
use crate::token_ops::{lemma_wf_unif_index, lemma_wf_list_index, lemma_wf_type_list_index};
use crate::ty::{SolType, wf_type, wf_type_list};
use crate::words::zeros;

verus! {

/// The packed encoding of one value. Outside arrays, primitives stand at
/// their native width with no padding; inside arrays (`in_array`), every
/// element is padded to a full word. Dynamic content is written in place with
/// no length word; there is no head/tail split anywhere.
pub open spec fn spec_packed(ty: SolType, v: ValueV, in_array: bool) -> Seq<u8>
    decreases ty, v, 0int,
{
    match ty {
        SolType::Bool => match v {
            ValueV::Bool(b) => {
                let bit = if b {
                    1u8
                } else {
                    0u8
                };
                if in_array {
                    zeros(31).push(bit)
                } else {
                    seq![bit]
                }
            },
            _ => Seq::empty(),
        },
        SolType::Uint(bits) => match v {
            ValueV::Uint(w) => if in_array {
                w
            } else {
                w.skip(32 - bits as int / 8)
            },
            _ => Seq::empty(),
        },
        SolType::Int(bits) => match v {
            ValueV::Int(w) => if in_array {
                w
            } else {
                w.skip(32 - bits as int / 8)
            },
            _ => Seq::empty(),
        },
        SolType::Address => match v {
            ValueV::Address(a) => if in_array {
                zeros(12) + a
            } else {
                a
            },
            _ => Seq::empty(),
        },
        SolType::FixedBytes(n) => match v {
            ValueV::FixedBytes(b) => if in_array {
                b + zeros((32 - n) as nat)
            } else {
                b
            },
            _ => Seq::empty(),
        },
        SolType::Bytes => match v {
            ValueV::Bytes(b) => b,
            _ => Seq::empty(),
        },
        SolType::Str => match v {
            ValueV::Str(b) => b,
            _ => Seq::empty(),
        },
        SolType::Array(e) => match v {
            ValueV::List(xs) => spec_packed_unif(*e, xs),
            _ => Seq::empty(),
        },
        SolType::FixedArray(e, _) => match v {
            ValueV::List(xs) => spec_packed_unif(*e, xs),
            _ => Seq::empty(),
        },
        SolType::Tuple(ts) => match v {
            ValueV::List(xs) => spec_packed_list(ts@, xs, in_array),
            _ => Seq::empty(),
        },
    }
}

pub open spec fn spec_packed_unif(e: SolType, xs: Seq<ValueV>) -> Seq<u8>
    decreases e, xs, 1int,
{
    if xs.len() == 0 {
        Seq::empty()
    } else {
        spec_packed_unif(e, xs.drop_last()) + spec_packed(e, xs.last(), true)
    }
}

pub open spec fn spec_packed_list(tys: Seq<SolType>, xs: Seq<ValueV>, in_array: bool) -> Seq<u8>
    decreases tys, xs, 1int,
{
    if tys.len() == 0 || xs.len() == 0 {
        Seq::empty()
    } else {
        spec_packed_list(tys.drop_last(), xs.drop_last(), in_array) + spec_packed(
            tys.last(),
            xs.last(),
            in_array,
        )
    }
}

/// The native packed width of one value: a full word for any array element,
/// the native byte width of a primitive otherwise, and the content length for
/// dynamic data written in place.
pub open spec fn packed_width(ty: SolType, v: ValueV, in_array: bool) -> nat
    decreases ty, v, 0int,
{
    match ty {
        SolType::Bool => if in_array {
            32
        } else {
            1
        },
        SolType::Uint(bits) => if in_array {
            32
        } else {
            bits as nat / 8
        },
        SolType::Int(bits) => if in_array {
            32
        } else {
            bits as nat / 8
        },
        SolType::Address => if in_array {
            32
        } else {
            20
        },
        SolType::FixedBytes(n) => if in_array {
            32
        } else {
            n as nat
        },
        SolType::Bytes => match v {
            ValueV::Bytes(b) => b.len(),
            _ => 0,
        },
        SolType::Str => match v {
            ValueV::Str(b) => b.len(),
            _ => 0,
        },
        SolType::Array(e) => match v {
            ValueV::List(xs) => packed_width_unif(*e, xs),
            _ => 0,
        },
        SolType::FixedArray(e, _) => match v {
            ValueV::List(xs) => packed_width_unif(*e, xs),
            _ => 0,
        },
        SolType::Tuple(ts) => match v {
            ValueV::List(xs) => packed_width_list(ts@, xs, in_array),
            _ => 0,
        },
    }
}

pub open spec fn packed_width_unif(e: SolType, xs: Seq<ValueV>) -> nat
    decreases e, xs, 1int,
{
    if xs.len() == 0 {
        0
    } else {
        packed_width_unif(e, xs.drop_last()) + packed_width(e, xs.last(), true)
    }
}

pub open spec fn packed_width_list(tys: Seq<SolType>, xs: Seq<ValueV>, in_array: bool) -> nat
    decreases tys, xs, 1int,
{
    if tys.len() == 0 || xs.len() == 0 {
        0
    } else {
        packed_width_list(tys.drop_last(), xs.drop_last(), in_array) + packed_width(
            tys.last(),
            xs.last(),
            in_array,
        )
    }
}

/// The packed-length law: the packed encoding of a well-formed value is
/// exactly as long as the sum of its elements' native packed widths.
pub proof fn lemma_packed_len(ty: SolType, v: ValueV, in_array: bool)
    requires
        wf_type(ty),
        wf_value(ty, v),
    ensures
        spec_packed(ty, v, in_array).len() == packed_width(ty, v, in_array),
    decreases ty, v, 0int,
{
    match ty {
        SolType::Array(e) => {
            if let ValueV::List(xs) = v {
                lemma_packed_len_unif(*e, xs);
            }
        },
        SolType::FixedArray(e, _) => {
            if let ValueV::List(xs) = v {
                lemma_packed_len_unif(*e, xs);
            }
        },
        SolType::Tuple(ts) => {
            if let ValueV::List(xs) = v {
                lemma_packed_len_list(ts@, xs, in_array);
            }
        },
        _ => {},
    }
}

proof fn lemma_packed_len_unif(e: SolType, xs: Seq<ValueV>)
    requires
        wf_type(e),
        wf_values_unif(e, xs),
    ensures
        spec_packed_unif(e, xs).len() == packed_width_unif(e, xs),
    decreases e, xs, 1int,
{
    if xs.len() > 0 {
        lemma_packed_len_unif(e, xs.drop_last());
        lemma_packed_len(e, xs.last(), true);
    }
}

proof fn lemma_packed_len_list(tys: Seq<SolType>, xs: Seq<ValueV>, in_array: bool)
    requires
        wf_type_list(tys),
        wf_values_list(tys, xs),
    ensures
        spec_packed_list(tys, xs, in_array).len() == packed_width_list(tys, xs, in_array),
    decreases tys, xs, 1int,
{
    if tys.len() > 0 {
        crate::token::lemma_wf_type_list_drop_last(tys);
        lemma_packed_len_list(tys.drop_last(), xs.drop_last(), in_array);
        lemma_packed_len(tys.last(), xs.last(), in_array);
    }
}

impl SolType {
    /// Appends the non-standard packed encoding of a well-formed value.
    pub fn abi_encode_packed_to(&self, value: &Value, out: &mut Vec<u8>)
        requires
            wf_type(*self),
            wf_value(*self, value@),
        ensures
            final(out)@ == old(out)@ + spec_packed(*self, value@, false),
    {
        packed_into(self, value, false, out);
    }

    /// The non-standard packed encoding of a well-formed value.
    pub fn abi_encode_packed(&self, value: &Value) -> (r: Vec<u8>)
        requires
            wf_type(*self),
            wf_value(*self, value@),
        ensures
            r@ == spec_packed(*self, value@, false),
    {
        let mut out: Vec<u8> = Vec::new();
        self.abi_encode_packed_to(value, &mut out);
        proof {
            assert(Seq::<u8>::empty() + spec_packed(*self, value@, false) =~= spec_packed(
                *self,
                value@,
                false,
            ));
        }
        out
    }
}

#[verifier::loop_isolation(false)]
fn packed_into(ty: &SolType, value: &Value, in_array: bool, out: &mut Vec<u8>)
    requires
        wf_type(*ty),
        wf_value(*ty, value@),
    ensures
        final(out)@ == old(out)@ + spec_packed(*ty, value@, in_array),
    decreases *ty, *value, 0int,
{
    match (ty, value) {
        (SolType::Bool, Value::Bool(b)) => {
            if in_array {
                let mut i: usize = 0;
                while i < 31
                    invariant
                        i <= 31,
                        out@ == old(out)@ + zeros(i as nat),
                    decreases 31 - i,
                {
                    out.push(0u8);
                    proof {
                        assert(out@ =~= old(out)@ + zeros((i + 1) as nat));
                    }
                    i = i + 1;
                }
            }
            if *b {
                out.push(1u8);
            } else {
                out.push(0u8);
            }
            proof {
                assert(final(out)@ =~= old(out)@ + spec_packed(*ty, value@, in_array));
            }
        },
        (SolType::Uint(bits), Value::Uint(w)) => {
            if in_array {
                crate::encode::push_bytes(out, w);
            } else {
                let cut = crate::token_ops::sub_bytes(w, 32 - bits / 8, 32);
                crate::encode::push_bytes(out, &cut);
                proof {
                    assert(w@.subrange(32 - *bits as int / 8, 32) =~= w@.skip(
                        32 - *bits as int / 8,
                    ));
                }
            }
        },
        (SolType::Int(bits), Value::Int(w)) => {
            if in_array {
                crate::encode::push_bytes(out, w);
            } else {
                let cut = crate::token_ops::sub_bytes(w, 32 - bits / 8, 32);
                crate::encode::push_bytes(out, &cut);
                proof {
                    assert(w@.subrange(32 - *bits as int / 8, 32) =~= w@.skip(
                        32 - *bits as int / 8,
                    ));
                }
            }
        },
        (SolType::Address, Value::Address(a)) => {
            if in_array {
                let mut i: usize = 0;
                while i < 12
                    invariant
                        i <= 12,
                        out@ == old(out)@ + zeros(i as nat),
                    decreases 12 - i,
                {
                    out.push(0u8);
                    proof {
                        assert(out@ =~= old(out)@ + zeros((i + 1) as nat));
                    }
                    i = i + 1;
                }
                crate::encode::push_bytes(out, a);
                proof {
                    assert(final(out)@ =~= old(out)@ + spec_packed(*ty, value@, in_array));
                }
            } else {
                crate::encode::push_bytes(out, a);
            }
        },
        (SolType::FixedBytes(n), Value::FixedBytes(b)) => {
            crate::encode::push_bytes(out, b);
            if in_array {
                let mut i: usize = 0;
                while i < 32 - *n
                    invariant
                        *n <= 32,
                        i <= 32 - *n,
                        out@ == old(out)@ + b@ + zeros(i as nat),
                    decreases 32 - *n - i,
                {
                    out.push(0u8);
                    proof {
                        assert(out@ =~= old(out)@ + b@ + zeros((i + 1) as nat));
                    }
                    i = i + 1;
                }
                proof {
                    assert(final(out)@ =~= old(out)@ + spec_packed(*ty, value@, in_array));
                }
            }
        },
        (SolType::Bytes, Value::Bytes(b)) => {
            crate::encode::push_bytes(out, b);
        },
        (SolType::Str, Value::Str(b)) => {
            crate::encode::push_bytes(out, b);
        },
        (SolType::Array(e), Value::List(xs)) => {
            packed_children_unif(e, xs, out);
        },
        (SolType::FixedArray(e, _), Value::List(xs)) => {
            packed_children_unif(e, xs, out);
        },
        (SolType::Tuple(ts), Value::List(xs)) => {
            packed_children_list(ts, xs, in_array, out);
        },
        _ => {
            proof {
                assert(false);
            }
        },
    }
}

#[verifier::loop_isolation(false)]
fn packed_children_unif(e: &SolType, xs: &Vec<Value>, out: &mut Vec<u8>)
    requires
        wf_type(*e),
        wf_values_unif(*e, value_views(xs@)),
    ensures
        final(out)@ == old(out)@ + spec_packed_unif(*e, value_views(xs@)),
    decreases *e, xs@, 1int,
{
    let ghost vv = value_views(xs@);
    proof {
        lemma_value_views_index(xs@);
    }
    let mut i: usize = 0;
    while i < xs.len()
        invariant
            i <= xs@.len(),
            out@ == old(out)@ + spec_packed_unif(*e, vv.take(i as int)),
        decreases xs@.len() - i,
    {
        proof {
            lemma_wf_unif_index(*e, vv, i as int);
        }
        packed_into(e, &xs[i], true, out);
        proof {
            assert(vv.take(i + 1).drop_last() =~= vv.take(i as int));
            assert(vv.take(i + 1).last() == vv[i as int]);
            assert(out@ =~= old(out)@ + spec_packed_unif(*e, vv.take(i + 1)));
        }
        i = i + 1;
    }
    proof {
        assert(vv.take(vv.len() as int) =~= vv);
    }
}

#[verifier::loop_isolation(false)]
fn packed_children_list(tys: &Vec<SolType>, xs: &Vec<Value>, in_array: bool, out: &mut Vec<u8>)
    requires
        wf_type_list(tys@),
        wf_values_list(tys@, value_views(xs@)),
    ensures
        final(out)@ == old(out)@ + spec_packed_list(tys@, value_views(xs@), in_array),
    decreases tys@, xs@, 1int,
{
    let ghost vv = value_views(xs@);
    proof {
        lemma_value_views_index(xs@);
    }
    let mut i: usize = 0;
    while i < xs.len()
        invariant
            i <= xs@.len(),
            out@ == old(out)@ + spec_packed_list(tys@.take(i as int), vv.take(i as int), in_array),
        decreases xs@.len() - i,
    {
        proof {
            lemma_wf_list_index(tys@, vv, i as int);
            lemma_wf_type_list_index(tys@, i as int);
        }
        packed_into(&tys[i], &xs[i], in_array, out);
        proof {
            assert(vv.take(i + 1).drop_last() =~= vv.take(i as int));
            assert(tys@.take(i + 1).drop_last() =~= tys@.take(i as int));
            assert(vv.take(i + 1).last() == vv[i as int]);
            assert(tys@.take(i + 1).last() == tys@[i as int]);
            assert(out@ =~= old(out)@ + spec_packed_list(
                tys@.take(i + 1),
                vv.take(i + 1),
                in_array,
            ));
        }
        i = i + 1;
    }
    proof {
        assert(vv.take(vv.len() as int) =~= vv);
        assert(tys@.take(tys@.len() as int) =~= tys@);
    }
}

} // verus!
