//! The shapes of a tied output head: `[.., hidden] @ [vocab, hidden]^T`.

use vstd::prelude::*;

use crate::config::laws::{volume, volume_from};

verus! {

/// The product of a list.
pub open spec fn product(dims: Seq<usize>) -> int
    decreases dims.len(),
{
    if dims.len() == 0 {
        1
    } else {
        product(dims.drop_last()) * dims.last()
    }
}

/// The matrix that a tied head multiplies.
#[derive(Debug, Clone, Copy, PartialEq, Eq, Structural)]
pub struct HeadShape {
    pub rows: usize,
    pub hidden: usize,
    pub vocab: usize,
}

/// Hidden states of these dimensions can be multiplied by a head of those: the
/// head is a matrix, the hidden states end in one, and they agree.
pub open spec fn head_fits(hidden: Seq<usize>, weight: Seq<usize>) -> bool {
    weight.len() == 2 && hidden.len() >= 2 && hidden.last() == weight[1]
}

/// The matrix that a tied head multiplies; `None` where the dimensions do not
/// fit.
pub fn head_shape(hidden: &Vec<usize>, weight: &Vec<usize>) -> (r: Option<HeadShape>)
    requires
        forall|n: int| 0 <= n < hidden@.len() ==> #[trigger] product(hidden@.take(n)) <= usize::MAX,
    ensures
        match r {
            Some(shape) => {
                &&& head_fits(hidden@, weight@)
                &&& shape.rows == product(hidden@.drop_last())
                &&& shape.hidden == hidden@.last()
                &&& shape.vocab == weight@[0]
            },
            None => !head_fits(hidden@, weight@),
        },
{
    if weight.len() != 2 || hidden.len() < 2 {
        return None;
    }
    let last = hidden.len() - 1;
    if hidden[last] != weight[1] {
        return None;
    }
    let mut rows: usize = 1;
    let mut i: usize = 0;
    assert(hidden@.take(0).len() == 0);
    while i < last
        invariant
            i <= last < hidden@.len(),
            forall|n: int|
                0 <= n < hidden@.len() ==> #[trigger] product(hidden@.take(n)) <= usize::MAX,
            rows == product(hidden@.take(i as int)),
        decreases last - i,
    {
        proof {
            let next = hidden@.take(i + 1);
            assert(next.drop_last() =~= hidden@.take(i as int));
            assert(next.last() == hidden@[i as int]);
            assert(product(next) == rows * hidden@[i as int]);
            assert(rows * hidden@[i as int] >= 0) by (nonlinear_arith);
        }
        rows = rows * hidden[i];
        i = i + 1;
    }
    assert(hidden@.take(last as int) =~= hidden@.drop_last());
    Some(HeadShape { rows, hidden: hidden[last], vocab: weight[0] })
}

/// The dimensions of the logits: those of the hidden states, with the
/// vocabulary in place of the width.
pub fn logits_dims(hidden: &Vec<usize>, vocab: usize) -> (out: Vec<usize>)
    requires
        hidden.len() > 0,
    ensures
        out@ == hidden@.drop_last().push(vocab),
{
    let mut out: Vec<usize> = Vec::new();
    let mut i: usize = 0;
    while i < hidden.len() - 1
        invariant
            hidden.len() > 0,
            i <= hidden.len() - 1,
            out@ == hidden@.take(i as int),
        decreases hidden.len() - 1 - i,
    {
        out.push(hidden[i]);
        i = i + 1;
        assert(out@ =~= hidden@.take(i as int));
    }
    out.push(vocab);
    assert(out@ =~= hidden@.drop_last().push(vocab));
    out
}

proof fn product_is_volume(dims: Seq<usize>)
    ensures
        product(dims) == volume(Seq::new(dims.len(), |i: int| dims[i] as int)),
    decreases dims.len(),
{
    let all = Seq::new(dims.len(), |i: int| dims[i] as int);
    if dims.len() > 0 {
        let rest = dims.drop_last();
        product_is_volume(rest);
        let some = Seq::new(rest.len(), |i: int| rest[i] as int);
        assert(all =~= some.push(dims.last() as int));
        volume_grows(some, dims.last() as int, 0);
    }
}

proof fn volume_grows(dims: Seq<int>, last: int, from: int)
    requires
        0 <= from <= dims.len(),
    ensures
        volume_from(dims.push(last), from) == volume_from(dims, from) * last,
    decreases dims.len() - from,
{
    let grown = dims.push(last);
    if from < dims.len() {
        volume_grows(dims, last, from + 1);
        let (a, b) = (dims[from], volume_from(dims, from + 1));
        assert(a * (b * last) == (a * b) * last) by (nonlinear_arith);
    } else {
        assert(volume_from(grown, from + 1) == 1);
        assert(last * 1 == 1 * last) by (nonlinear_arith);
    }
}

/// A tied head multiplies a matrix with a row for each hidden state, as wide as
/// they are, by one with a row for each token of the vocabulary, and gives a logit
/// for each token to each hidden state. It does so where the head is a matrix and
/// the hidden states are as wide as its rows, and nowhere else.
pub proof fn heads_give_every_state_its_logits(
    hidden: Vec<usize>,
    weight: Vec<usize>,
    r: Option<HeadShape>,
    dims: Vec<usize>,
)
    requires
        call_ensures(head_shape, (&hidden, &weight), r),
        r is Some ==> call_ensures(logits_dims, (&hidden, r->0.vocab), dims),
    ensures
        r is Some <==> {
            &&& weight@.len() == 2
            &&& hidden@.len() >= 2
            &&& hidden@[hidden@.len() - 1] == weight@[1]
        },
        r matches Some(s) ==> {
            let n = hidden@.len() - 1;
            &&& s.rows == volume(Seq::new(n as nat, |i: int| hidden@[i] as int))
            &&& s.hidden == hidden@[n]
            &&& s.hidden == weight@[1]
            &&& s.vocab == weight@[0]
            &&& dims@.len() == hidden@.len()
            &&& dims@[n] == weight@[0]
            &&& forall|i: int| 0 <= i < n ==> #[trigger] dims@[i] == hidden@[i]
        },
{
    if r is Some {
        let rest = hidden@.drop_last();
        product_is_volume(rest);
        assert(Seq::new(rest.len(), |i: int| rest[i] as int) =~= Seq::new(
            (hidden@.len() - 1) as nat,
            |i: int| hidden@[i] as int,
        ));
    }
}

} // verus!
